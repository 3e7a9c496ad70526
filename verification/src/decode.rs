use vstd::prelude::*;
use crate::candle::Candle;
use crate::parse::{
    all_digits, digits_val, is_price, parse_price, parse_u64, price_val_e8,
};
use vstd::string::StrSliceExecFns;

verus! {

/// Why a fetched response was rejected.  Every failure is fatal to the
/// request: no partial or defaulted candle list is ever produced.
#[derive(Debug, PartialEq, Eq, Structural, Clone, Copy)]
pub enum DecodeError {
    /// The upstream status code was not the success sentinel `0`.
    UpstreamStatus,
    /// The upstream status message was not the literal `OK`.
    UpstreamMessage,
    /// A row was not a well-formed candle.
    BadCandle,
}

/// The timestamp field is a digit string whose value fits in `u64`.
pub open spec fn ts_ok(t: Seq<char>) -> bool {
    t.len() >= 1 && all_digits(t) && digits_val(t) <= u64::MAX
}

/// The price field is a decimal literal whose scaled value fits in `u64`.
pub open spec fn price_ok(t: Seq<char>) -> bool {
    is_price(t) && price_val_e8(t) <= u64::MAX
}

/// A raw row is a well-formed candle: seven fields, a decodable timestamp,
/// four prices in range, and a positive low bounding open and close.
pub open spec fn row_ok(row: Seq<String>) -> bool {
    &&& row.len() == 7
    &&& ts_ok(row[0]@)
    &&& price_ok(row[1]@)
    &&& price_ok(row[2]@)
    &&& price_ok(row[3]@)
    &&& price_ok(row[4]@)
    &&& 0 < price_val_e8(row[3]@)
    &&& price_val_e8(row[3]@) <= price_val_e8(row[1]@) <= price_val_e8(row[2]@)
    &&& price_val_e8(row[3]@) <= price_val_e8(row[4]@) <= price_val_e8(row[2]@)
}

/// `c` holds exactly the decoded fields of `row`.
pub open spec fn candle_matches_row(c: Candle, row: Seq<String>) -> bool {
    &&& c.start_ms == digits_val(row[0]@)
    &&& c.open_e8 == price_val_e8(row[1]@)
    &&& c.high_e8 == price_val_e8(row[2]@)
    &&& c.low_e8 == price_val_e8(row[3]@)
    &&& c.close_e8 == price_val_e8(row[4]@)
    &&& c.volume@ == row[5]@
    &&& c.turnover@ == row[6]@
}

/// Decodes one kline response that has already been split into its status
/// code, status message and raw rows of string fields, in wire order
/// `[start, open, high, low, close, volume, turnover]`.
///
/// The fetch succeeds only against a status code of `0` and the literal
/// message `OK`; any other envelope, and any malformed row, rejects the
/// whole response.
pub fn decode_response(ret_code: i64, ret_msg: &str, rows: &Vec<Vec<String>>) -> (r: Result<
    Vec<Candle>,
    DecodeError,
>)
    ensures
        ret_code != 0 ==> r == Err::<Vec<Candle>, DecodeError>(DecodeError::UpstreamStatus),
        ret_code == 0 && ret_msg@ != "OK"@ ==> r == Err::<Vec<Candle>, DecodeError>(
            DecodeError::UpstreamMessage,
        ),
        ret_code == 0 && ret_msg@ == "OK"@ && (exists|i: int|
            0 <= i < rows@.len() && !row_ok(#[trigger] rows@[i]@)) ==> r == Err::<
            Vec<Candle>,
            DecodeError,
        >(DecodeError::BadCandle),
        ret_code == 0 && ret_msg@ == "OK"@ && (forall|i: int|
            0 <= i < rows@.len() ==> row_ok(#[trigger] rows@[i]@)) ==> (r matches Ok(cs)
            && cs@.len() == rows@.len() && (forall|j: int|
            0 <= j < rows@.len() ==> candle_matches_row(#[trigger] cs@[j], rows@[j]@)
                && cs@[j].valid())),
{
    if ret_code != 0 {
        return Err(DecodeError::UpstreamStatus);
    }
    let msg_ok: bool = ret_msg.unicode_len() == 2 && ret_msg.get_char(0) == 'O'
        && ret_msg.get_char(1) == 'K';
    proof {
        reveal_strlit("OK");
    }
    if !msg_ok {
        proof {
            assert(ret_msg@ != "OK"@);
        }
        return Err(DecodeError::UpstreamMessage);
    }
    proof {
        assert(ret_msg@ =~= "OK"@);
    }
    let mut out: Vec<Candle> = Vec::new();
    let mut i: usize = 0;
    while i < rows.len()
        invariant
            ret_code == 0,
            ret_msg@ == "OK"@,
            i <= rows@.len(),
            out@.len() == i,
            forall|j: int| 0 <= j < i ==> row_ok(#[trigger] rows@[j]@),
            forall|j: int|
                0 <= j < i ==> candle_matches_row(#[trigger] out@[j], rows@[j]@)
                    && out@[j].valid(),
        decreases rows@.len() - i,
    {
        let row: &Vec<String> = &rows[i];
        if row.len() != 7 {
            proof {
                assert(!row_ok(rows@[i as int]@));
            }
            return Err(DecodeError::BadCandle);
        }
        let ts: u64 = match parse_u64(row[0].as_str()) {
            Ok(v) => v,
            Err(_) => {
                proof {
                    assert(!row_ok(rows@[i as int]@));
                }
                return Err(DecodeError::BadCandle);
            },
        };
        let o: u64 = match parse_price(row[1].as_str()) {
            Ok(v) => v,
            Err(_) => {
                proof {
                    assert(!row_ok(rows@[i as int]@));
                }
                return Err(DecodeError::BadCandle);
            },
        };
        let h: u64 = match parse_price(row[2].as_str()) {
            Ok(v) => v,
            Err(_) => {
                proof {
                    assert(!row_ok(rows@[i as int]@));
                }
                return Err(DecodeError::BadCandle);
            },
        };
        let l: u64 = match parse_price(row[3].as_str()) {
            Ok(v) => v,
            Err(_) => {
                proof {
                    assert(!row_ok(rows@[i as int]@));
                }
                return Err(DecodeError::BadCandle);
            },
        };
        let c: u64 = match parse_price(row[4].as_str()) {
            Ok(v) => v,
            Err(_) => {
                proof {
                    assert(!row_ok(rows@[i as int]@));
                }
                return Err(DecodeError::BadCandle);
            },
        };
        if l == 0 || l > h || o < l || o > h || c < l || c > h {
            proof {
                assert(!row_ok(rows@[i as int]@));
            }
            return Err(DecodeError::BadCandle);
        }
        let cand = Candle {
            start_ms: ts,
            open_e8: o,
            high_e8: h,
            low_e8: l,
            close_e8: c,
            volume: row[5].clone(),
            turnover: row[6].clone(),
        };
        out.push(cand);
        i = i + 1;
    }
    Ok(out)
}

} // verus!


//! Contest creation from a free-text message.
//!
//! The expected message is exactly three non-empty-prefixed lines: the
//! contest name, the end date (`YYYY-MM-DD hh:mm TZ`, seconds assumed `:00`),
//! and the prize. Parsing fails when the line count is wrong, when the date
//! does not parse, or when the end is not strictly in the future.

use vstd::prelude::*;

use crate::text::{
    chars_of, r_views, split_ch, split_on_char, split_whitespace_chars, string_from_chars,
    ws_tokens,
};
use crate::types::{Contest, ContestV};

verus! {

/// Why a free-text contest submission was rejected.
#[derive(Debug, Clone, Copy, PartialEq, Eq, Structural)]
pub enum Error {
    /// The message does not hold exactly three lines.
    LineCount,
    /// The end date does not parse.
    ParseError,
    /// The end date is not strictly in the future.
    PastEnd,
}

/// What `chrono` makes of an end-date line in the format
/// `%Y-%m-%d %H:%M:%S %#z`: the Unix timestamp, or nothing when the text does
/// not parse. A function of the characters alone.
pub uninterp spec fn parse_end_ts(s: Seq<char>) -> Option<i64>;

/// Relies on `chrono::DateTime::parse_from_str` (format
/// `%Y-%m-%d %H:%M:%S %#z`) and `DateTime::timestamp`: both depend only on
/// the input characters.
#[verifier::external_body]
fn parse_contest_end(s: &Vec<char>) -> (r: Option<i64>)
    ensures
        r == parse_end_ts(s@),
{
    let text: String = s.iter().collect();
    match chrono::DateTime::parse_from_str(&text, "%Y-%m-%d %H:%M:%S %#z") {
        Ok(d) => Some(d.timestamp()),
        Err(_) => None,
    }
}

/// The lines of the message, with leading empty lines dropped.
pub open spec fn drop_leading_empty(ls: Seq<Seq<char>>) -> Seq<Seq<char>>
    decreases ls.len(),
{
    if ls.len() > 0 && ls[0].len() == 0 {
        drop_leading_empty(ls.drop_first())
    } else {
        ls
    }
}

pub open spec fn content_rows(s: Seq<char>) -> Seq<Seq<char>> {
    drop_leading_empty(split_ch(s, '\n'))
}

/// The date line with `:00` seconds spliced in after the time, when the line
/// has the expected three fields; otherwise the line untouched.
pub open spec fn with_seconds(row: Seq<char>) -> Seq<char> {
    let ts = ws_tokens(row);
    if ts.len() == 3 {
        ts[0] + seq![' '] + ts[1] + seq![':', '0', '0'] + seq![' '] + ts[2]
    } else {
        row
    }
}

/// What a free-text submission means: a draft contest for `chan`, or the
/// reason it is rejected.
pub open spec fn spec_from_text(s: Seq<char>, chan: i64, now: i64) -> Result<ContestV, Error> {
    let rows = content_rows(s);
    if rows.len() != 3 {
        Err(Error::LineCount)
    } else {
        match parse_end_ts(with_seconds(rows[1])) {
            None => Err(Error::ParseError),
            Some(end) => if end <= now {
                Err(Error::PastEnd)
            } else {
                Ok(
                    ContestV {
                        id: -1i64,
                        name: rows[0],
                        prize: rows[2],
                        end: end,
                        started_at: None,
                        stopped: false,
                        chan: chan,
                    },
                )
            },
        }
    }
}

/// Appends the characters of `src` to `dst`.
#[verifier::loop_isolation(false)]
fn append_chars(dst: &mut Vec<char>, src: &Vec<char>)
    ensures
        final(dst)@ == old(dst)@ + src@,
{
    let mut i: usize = 0;
    while i < src.len()
        invariant
            0 <= i <= src@.len(),
            dst@ == old(dst)@ + src@.take(i as int),
        decreases src@.len() - i,
    {
        let c = src[i];
        dst.push(c);
        proof {
            assert(old(dst)@ + src@.take(i as int) + seq![c] =~= old(dst)@ + src@.take(i + 1));
        }
        i += 1;
    }
    proof {
        assert(src@.take(src@.len() as int) =~= src@);
    }
}

/// Parses a free-text contest submission into a draft contest (`id` is the
/// `-1` placeholder until the store assigns one), exactly as
/// [`spec_from_text`] says: rejected when there are not exactly three lines,
/// when the date does not parse, or when the end is not strictly after `now`.
#[verifier::loop_isolation(false)]
#[verifier::rlimit(100)]
pub fn from_text(text: &str, chan: i64, now: i64) -> (r: Result<Contest, Error>)
    ensures
        (match r {
            Ok(c) => spec_from_text(text@, chan, now) matches Ok(cv) && c@ == cv,
            Err(e) => spec_from_text(text@, chan, now) == Err::<ContestV, Error>(e),
        }),
{
    let chars = chars_of(text);
    let lines = split_on_char(&chars, '\n');
    let ghost all_rows = split_ch(text@, '\n');
    proof {
        assert(r_views(lines@) == all_rows);
    }
    // drop leading empty lines
    let mut z: usize = 0;
    assert(all_rows.skip(0) =~= all_rows);
    while z < lines.len() && lines[z].len() == 0
        invariant
            0 <= z <= lines@.len(),
            drop_leading_empty(all_rows) == drop_leading_empty(all_rows.skip(z as int)),
        decreases lines@.len() - z,
    {
        proof {
            let cur = all_rows.skip(z as int);
            assert(cur[0] == lines@[z as int]@);
            assert(cur.drop_first() =~= all_rows.skip(z as int + 1));
        }
        z += 1;
    }
    let ghost rows = content_rows(text@);
    proof {
        let cur = all_rows.skip(z as int);
        if z < lines@.len() {
            assert(cur[0] == lines@[z as int]@);
            assert(cur[0].len() > 0);
        }
        assert(drop_leading_empty(cur) == cur);
        assert(rows == all_rows.skip(z as int));
    }
    if lines.len() - z != 3 {
        return Err(Error::LineCount);
    }
    proof {
        assert(rows.len() == 3);
        assert(rows[0] == lines@[z as int]@);
        assert(rows[1] == lines@[z as int + 1]@);
        assert(rows[2] == lines@[z as int + 2]@);
    }
    // splice `:00` seconds into the date line
    let toks = split_whitespace_chars(&lines[z + 1]);
    proof {
        assert(r_views(toks@) == ws_tokens(rows[1]));
    }
    let mut date_row: Vec<char> = Vec::new();
    if toks.len() == 3 {
        append_chars(&mut date_row, &toks[0]);
        date_row.push(' ');
        append_chars(&mut date_row, &toks[1]);
        date_row.push(':');
        date_row.push('0');
        date_row.push('0');
        date_row.push(' ');
        append_chars(&mut date_row, &toks[2]);
        proof {
            assert(toks@[0]@ == ws_tokens(rows[1])[0]);
            assert(toks@[1]@ == ws_tokens(rows[1])[1]);
            assert(toks@[2]@ == ws_tokens(rows[1])[2]);
            assert(date_row@ =~= with_seconds(rows[1]));
        }
    } else {
        append_chars(&mut date_row, &lines[z + 1]);
        proof {
            assert(date_row@ =~= with_seconds(rows[1]));
        }
    }
    let end_opt = parse_contest_end(&date_row);
    match end_opt {
        None => Err(Error::ParseError),
        Some(end) => {
            if end <= now {
                Err(Error::PastEnd)
            } else {
                let name = string_from_chars(&lines[z]);
                let prize = string_from_chars(&lines[z + 2]);
                let c = Contest {
                    id: -1,
                    name: name,
                    prize: prize,
                    end: end,
                    started_at: None,
                    stopped: false,
                    chan: chan,
                };
                Ok(c)
            }
        },
    }
}

} // verus!

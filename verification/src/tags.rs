use crate::grammar::{is_ws, skip_ws};
use crate::num::{all_digits, dec_val};
use crate::parse::{char_is_ws, find_char, str_chars, trim_start};
use crate::types::{view_headers, view_pgn, GameResult, Pgn4V, PGN4};
use vstd::prelude::*;
use vstd::slice::{slice_index_get, slice_subrange};

verus! {

/// The value of the first header pair with the given name.
pub open spec fn sp_tag(bs: Seq<(Seq<char>, Seq<char>)>, name: Seq<char>) -> Option<Seq<char>>
    decreases bs.len(),
{
    if bs.len() == 0 {
        None
    } else if bs[0].0 == name {
        Some(bs[0].1)
    } else {
        sp_tag(bs.drop_first(), name)
    }
}

/// What `u16` parsing accepts: an optional leading '+', then at least one
/// digit, with the value fitting the type.
pub open spec fn sp_u16(s: Seq<char>) -> Option<u16> {
    let digits = if s.len() > 0 && s[0] == '+' {
        s.drop_first()
    } else {
        s
    };
    if digits.len() > 0 && all_digits(digits) && dec_val(digits) <= u16::MAX {
        Some(dec_val(digits) as u16)
    } else {
        None
    }
}

/// The input with its trailing whitespace removed.
pub open spec fn strip_ws_end(s: Seq<char>) -> Seq<char>
    decreases s.len(),
{
    if s.len() > 0 && is_ws(s.last()) {
        strip_ws_end(s.drop_last())
    } else {
        s
    }
}

/// The input with whitespace removed at both ends.
pub open spec fn trim_ws(s: Seq<char>) -> Seq<char> {
    strip_ws_end(skip_ws(s))
}

/// The first index at or after `i` where the separator " - " starts.
pub open spec fn find_dash_from(s: Seq<char>, i: int) -> Option<int>
    decreases s.len() - i,
{
    if i < 0 || i + 3 > s.len() {
        None
    } else if s[i] == ' ' && s[i + 1] == '-' && s[i + 2] == ' ' {
        Some(i)
    } else {
        find_dash_from(s, i + 1)
    }
}

/// The input split on each " - ".
pub open spec fn sp_split_dash(s: Seq<char>) -> Seq<Seq<char>>
    decreases s.len(),
{
    match find_dash_from(s, 0) {
        None => seq![s],
        Some(k) => if 0 <= k && k + 3 <= s.len() {
            seq![s.take(k)] + sp_split_dash(s.skip(k + 3))
        } else {
            seq![s]
        },
    }
}

/// The input split on each ':'.
pub open spec fn sp_split_colon(s: Seq<char>) -> Seq<Seq<char>>
    decreases s.len(),
{
    match crate::grammar::find_from(s, ':', 0) {
        None => seq![s],
        Some(k) => if 0 <= k < s.len() {
            seq![s.take(k)] + sp_split_colon(s.skip(k + 1))
        } else {
            seq![s]
        },
    }
}

/// One scored segment of a free-for-all result: "name : points", where the
/// name must be the named player of that seat.
pub open spec fn sp_ffa_segment(seg: Seq<char>, name: Seq<char>) -> Option<u16> {
    let parts = sp_split_colon(trim_ws(seg));
    if parts.len() != 2 {
        None
    } else if trim_ws(parts[0]) != name {
        None
    } else {
        sp_u16(trim_ws(parts[1]))
    }
}

/// The free-for-all scores drawn from the result's segments, one segment
/// for each seat that names a player, with no segments left over.
pub open spec fn sp_ffa(
    segs: Seq<Seq<char>>,
    colors: Seq<Option<Seq<char>>>,
    i: int,
    si: int,
    scores: Seq<u16>,
) -> GameResult
    decreases 4 - i,
{
    if i >= 4 {
        if si < segs.len() {
            GameResult::Error
        } else {
            GameResult::FFA([scores[0], scores[1], scores[2], scores[3]])
        }
    } else {
        match colors[i] {
            None => sp_ffa(segs, colors, i + 1, si, scores),
            Some(name) => {
                if si >= segs.len() {
                    GameResult::Error
                } else {
                    match sp_ffa_segment(segs[si], name) {
                        None => GameResult::Error,
                        Some(v) => sp_ffa(segs, colors, i + 1, si + 1, scores.update(i, v)),
                    }
                }
            },
        }
    }
}

pub open spec fn seat_names(p: Pgn4V) -> Seq<Option<Seq<char>>> {
    seq![
        sp_tag(p.bracketed, seq!['R', 'e', 'd']),
        sp_tag(p.bracketed, seq!['B', 'l', 'u', 'e']),
        sp_tag(p.bracketed, seq!['Y', 'e', 'l', 'l', 'o', 'w']),
        sp_tag(p.bracketed, seq!['G', 'r', 'e', 'e', 'n']),
    ]
}

/// How the "Result" tag reads: the fixed drawn/won/aborted forms, or a
/// free-for-all score list, or `Error` when absent or malformed.
pub open spec fn sp_result(p: Pgn4V) -> GameResult {
    match sp_tag(p.bracketed, seq!['R', 'e', 's', 'u', 'l', 't']) {
        None => GameResult::Error,
        Some(r) => {
            if r == seq!['A', 'b', 'o', 'r', 't', 'e', 'd'] {
                GameResult::Aborted
            } else if r == seq!['D', 'r', 'a', 'w'] {
                GameResult::Team(false, false)
            } else if r == seq!['1', '-', '0'] {
                GameResult::Team(true, false)
            } else if r == seq!['0', '-', '1'] {
                GameResult::Team(false, true)
            } else {
                sp_ffa(sp_split_dash(r), seat_names(p), 0, 0, seq![0u16, 0u16, 0u16, 0u16])
            }
        },
    }
}

/// Whether two strings hold the same characters.
pub(crate) fn str_eq(a: &str, b: &str) -> (r: bool)
    ensures
        r == (a@ == b@),
{
    let n = a.unicode_len();
    if n != b.unicode_len() {
        return false;
    }
    let mut i: usize = 0;
    while i < n
        invariant
            i <= n,
            n == a@.len() && n == b@.len(),
            forall|k: int| 0 <= k < i ==> a@[k] == b@[k],
        decreases n - i,
    {
        if a.get_char(i) != b.get_char(i) {
            return false;
        }
        i += 1;
    }
    proof {
        assert(a@ =~= b@);
    }
    true
}

/// Whether a slice of characters reads as the given string.
fn chars_eq_str(a: &[char], b: &str) -> (r: bool)
    ensures
        r == (a@ == b@),
{
    let n = b.unicode_len();
    if a.len() != n {
        return false;
    }
    let mut i: usize = 0;
    while i < n
        invariant
            i <= n,
            n == a@.len() && n == b@.len(),
            forall|k: int| 0 <= k < i ==> a@[k] == b@[k],
        decreases n - i,
    {
        if *slice_index_get(a, i) != b.get_char(i) {
            return false;
        }
        i += 1;
    }
    proof {
        assert(a@ =~= b@);
    }
    true
}

/// Remove trailing whitespace.
fn trim_end<'a>(s: &'a [char]) -> (r: &'a [char])
    ensures
        r@ == strip_ws_end(s@),
{
    let mut i: usize = s.len();
    proof {
        assert(s@.take(s@.len() as int) =~= s@);
    }
    while i > 0 && char_is_ws(*slice_index_get(s, i - 1))
        invariant
            i <= s@.len(),
            strip_ws_end(s@) == strip_ws_end(s@.take(i as int)),
        decreases i,
    {
        proof {
            let t = s@.take(i as int);
            assert(t.last() == s@[i - 1]);
            assert(t.drop_last() =~= s@.take(i - 1));
        }
        i -= 1;
    }
    proof {
        let t = s@.take(i as int);
        if i > 0 {
            assert(t.last() == s@[i - 1]);
        }
        assert(strip_ws_end(t) == t);
    }
    let r = slice_subrange(s, 0, i);
    proof {
        assert(r@ =~= s@.take(i as int));
    }
    r
}

/// Remove whitespace at both ends.
fn trim_both<'a>(s: &'a [char]) -> (r: &'a [char])
    ensures
        r@ == trim_ws(s@),
{
    trim_end(trim_start(s))
}

/// Parse a whole slice of characters as a `u16`.
fn parse_u16(s: &[char]) -> (r: Option<u16>)
    ensures
        r == sp_u16(s@),
{
    let mut i: usize = 0;
    if s.len() > 0 && *slice_index_get(s, 0) == '+' {
        i = 1;
    }
    let ghost digits = if s@.len() > 0 && s@[0] == '+' {
        s@.drop_first()
    } else {
        s@
    };
    if i >= s.len() {
        proof {
            assert(digits.len() == 0);
            assert(sp_u16(s@) is None);
        }
        return None;
    }
    let mut acc: u32 = 0;
    let start = i;
    while i < s.len()
        invariant
            start <= i <= s@.len(),
            start == (if s@.len() > 0 && s@[0] == '+' {
                1int
            } else {
                0int
            }),
            digits =~= s@.subrange(start as int, s@.len() as int),
            all_digits(s@.subrange(start as int, i as int)),
            acc as nat == dec_val(s@.subrange(start as int, i as int)),
            acc <= u16::MAX,
        decreases s@.len() - i,
    {
        let c = *slice_index_get(s, i);
        if !crate::num::char_is_digit(c) {
            proof {
                assert(digits[i - start] == c);
                assert(!all_digits(digits));
                assert(sp_u16(s@) is None);
            }
            return None;
        }
        let d = crate::num::char_digit_val(c);
        let next = acc * 10 + (d as u32);
        proof {
            let pre = s@.subrange(start as int, i as int);
            let cur = s@.subrange(start as int, i + 1);
            assert(cur.drop_last() =~= pre);
            assert(cur.last() == c);
        }
        if next > 65535 {
            proof {
                let cur = s@.subrange(start as int, i + 1);
                assert(dec_val(cur) > u16::MAX);
                assert(cur =~= digits.subrange(0, i - start + 1));
                crate::num::lemma_dec_val_prefix(digits, i - start + 1);
                assert(dec_val(digits) > u16::MAX);
                let dd = if s@.len() > 0 && s@[0] == '+' {
                    s@.drop_first()
                } else {
                    s@
                };
                assert(dd == digits);
                assert(!(dd.len() > 0 && all_digits(dd) && dec_val(dd) <= u16::MAX));
                assert(sp_u16(s@) is None);
            }
            return None;
        }
        acc = next;
        i += 1;
    }
    proof {
        assert(s@.subrange(start as int, s@.len() as int) =~= digits);
        let dd = if s@.len() > 0 && s@[0] == '+' {
            s@.drop_first()
        } else {
            s@
        };
        assert(dd == digits);
        assert(dd.len() > 0 && all_digits(dd) && dec_val(dd) <= u16::MAX);
        assert(sp_u16(s@) == Some(dec_val(dd) as u16));
    }
    Some(acc as u16)
}

/// The first index where " - " starts, if any.
fn find_dash(s: &[char]) -> (r: Option<usize>)
    ensures
        match r {
            Some(k) => find_dash_from(s@, 0) == Some(k as int) && k + 3 <= s@.len(),
            None => find_dash_from(s@, 0) is None,
        },
{
    let n = s.len();
    if n < 3 {
        return None;
    }
    let mut i: usize = 0;
    while i <= n - 3
        invariant
            n == s@.len(),
            3 <= n,
            i <= n - 2,
            find_dash_from(s@, 0) == find_dash_from(s@, i as int),
        decreases s@.len() - i,
    {
        if *slice_index_get(s, i) == ' ' && *slice_index_get(s, i + 1) == '-' && *slice_index_get(
            s,
            i + 2,
        ) == ' ' {
            return Some(i);
        }
        i += 1;
    }
    None
}

/// The input split on each " - ".
fn split_dash<'a>(s: &'a [char]) -> (r: Vec<&'a [char]>)
    ensures
        r@.len() == sp_split_dash(s@).len(),
        forall|k: int| 0 <= k < r@.len() ==> (#[trigger] r@[k])@ == sp_split_dash(s@)[k],
    decreases s@.len(),
{
    match find_dash(s) {
        None => {
            let mut r: Vec<&'a [char]> = Vec::new();
            r.push(s);
            r
        },
        Some(k) => {
            let n = s.len();
            proof {
                assert(k + 3 <= s@.len());
            }
            let head = slice_subrange(s, 0, k);
            let rest = slice_subrange(s, k + 3, n);
            proof {
                assert(head@ =~= s@.take(k as int));
                assert(rest@ =~= s@.skip(k + 3));
            }
            let mut r: Vec<&'a [char]> = Vec::new();
            r.push(head);
            let mut more = split_dash(rest);
            let ghost more_snap = more@;
            r.append(&mut more);
            proof {
                assert(r@.len() == 1 + more_snap.len());
                assert(sp_split_dash(s@) == seq![s@.take(k as int)] + sp_split_dash(s@.skip(k + 3)));
                assert forall|t: int| 0 <= t < r@.len() implies (#[trigger] r@[t])@
                    == sp_split_dash(s@)[t] by {
                    if t > 0 {
                        assert(r@[t] == more_snap[t - 1]);
                    }
                }
            }
            r
        },
    }
}

/// The input split on each ':'.
fn split_colon<'a>(s: &'a [char]) -> (r: Vec<&'a [char]>)
    ensures
        r@.len() == sp_split_colon(s@).len(),
        forall|k: int| 0 <= k < r@.len() ==> (#[trigger] r@[k])@ == sp_split_colon(s@)[k],
    decreases s@.len(),
{
    match find_char(s, ':') {
        None => {
            let mut r: Vec<&'a [char]> = Vec::new();
            r.push(s);
            r
        },
        Some(k) => {
            let n = s.len();
            proof {
                assert(k < s@.len());
            }
            let head = slice_subrange(s, 0, k);
            let rest = slice_subrange(s, k + 1, n);
            proof {
                assert(head@ =~= s@.take(k as int));
                assert(rest@ =~= s@.skip(k + 1));
            }
            let mut r: Vec<&'a [char]> = Vec::new();
            r.push(head);
            let mut more = split_colon(rest);
            let ghost more_snap = more@;
            r.append(&mut more);
            proof {
                assert(r@.len() == 1 + more_snap.len());
                assert(sp_split_colon(s@) == seq![s@.take(k as int)] + sp_split_colon(
                    s@.skip(k + 1),
                ));
                assert forall|t: int| 0 <= t < r@.len() implies (#[trigger] r@[t])@
                    == sp_split_colon(s@)[t] by {
                    if t > 0 {
                        assert(r@[t] == more_snap[t - 1]);
                    }
                }
            }
            r
        },
    }
}

impl PGN4 {
    /// The value of the first header pair with the given name.
    pub fn tag<'a>(&'a self, tag_name: &str) -> (r: Option<&'a str>)
        ensures
            match r {
                Some(v) => sp_tag(view_pgn(*self).bracketed, tag_name@) == Some(v@),
                None => sp_tag(view_pgn(*self).bracketed, tag_name@) is None,
            },
    {
        let ghost bs = view_pgn(*self).bracketed;
        proof {
            assert(bs.skip(0) =~= bs);
        }
        let mut i: usize = 0;
        while i < self.bracketed.len()
            invariant
                i <= self.bracketed@.len(),
                bs == view_headers(self.bracketed@),
                sp_tag(bs, tag_name@) == sp_tag(bs.skip(i as int), tag_name@),
            decreases self.bracketed@.len() - i,
        {
            proof {
                assert(bs.skip(i as int)[0] == bs[i as int]);
                assert(bs[i as int] == (self.bracketed@[i as int].0@,
                self.bracketed@[i as int].1@));
            }
            if str_eq(self.bracketed[i].0.as_str(), tag_name) {
                return Some(self.bracketed[i].1.as_str());
            }
            proof {
                assert(bs.skip(i as int).drop_first() =~= bs.skip(i + 1));
            }
            i += 1;
        }
        proof {
            assert(bs.skip(i as int).len() == 0);
        }
        None
    }

    /// The four players' ratings, where all four rating tags parse.
    pub fn ratings(&self) -> (r: Option<[u16; 4]>)
        ensures
            match r {
                Some(a) => {
                    &&& (match sp_tag(view_pgn(*self).bracketed, "RedElo"@) {
                        Some(v) => sp_u16(v) == Some(a[0]),
                        None => false,
                    })
                    &&& (match sp_tag(view_pgn(*self).bracketed, "BlueElo"@) {
                        Some(v) => sp_u16(v) == Some(a[1]),
                        None => false,
                    })
                    &&& (match sp_tag(view_pgn(*self).bracketed, "YellowElo"@) {
                        Some(v) => sp_u16(v) == Some(a[2]),
                        None => false,
                    })
                    &&& (match sp_tag(view_pgn(*self).bracketed, "GreenElo"@) {
                        Some(v) => sp_u16(v) == Some(a[3]),
                        None => false,
                    })
                },
                None => {
                    ||| (match sp_tag(view_pgn(*self).bracketed, "RedElo"@) {
                        Some(v) => sp_u16(v) is None,
                        None => true,
                    })
                    ||| (match sp_tag(view_pgn(*self).bracketed, "BlueElo"@) {
                        Some(v) => sp_u16(v) is None,
                        None => true,
                    })
                    ||| (match sp_tag(view_pgn(*self).bracketed, "YellowElo"@) {
                        Some(v) => sp_u16(v) is None,
                        None => true,
                    })
                    ||| (match sp_tag(view_pgn(*self).bracketed, "GreenElo"@) {
                        Some(v) => sp_u16(v) is None,
                        None => true,
                    })
                },
            },
    {
        let red = match self.parse_elo("RedElo") {
            Some(v) => v,
            None => {
                return None;
            },
        };
        let blue = match self.parse_elo("BlueElo") {
            Some(v) => v,
            None => {
                return None;
            },
        };
        let yellow = match self.parse_elo("YellowElo") {
            Some(v) => v,
            None => {
                return None;
            },
        };
        let green = match self.parse_elo("GreenElo") {
            Some(v) => v,
            None => {
                return None;
            },
        };
        Some([red, blue, yellow, green])
    }

    /// One rating tag, parsed.
    fn parse_elo(&self, name: &str) -> (r: Option<u16>)
        ensures
            match r {
                Some(v) => (match sp_tag(view_pgn(*self).bracketed, name@) {
                    Some(t) => sp_u16(t) == Some(v),
                    None => false,
                }),
                None => (match sp_tag(view_pgn(*self).bracketed, name@) {
                    Some(t) => sp_u16(t) is None,
                    None => true,
                }),
            },
    {
        match self.tag(name) {
            Some(v) => {
                let chars = str_chars(v);
                parse_u16(chars.as_slice())
            },
            None => None,
        }
    }

    /// The four players' names, where all four name tags are present.
    pub fn players(&self) -> (r: Option<[&str; 4]>)
        ensures
            match r {
                Some(a) => sp_tag(view_pgn(*self).bracketed, "Red"@) == Some(a[0]@) && sp_tag(
                    view_pgn(*self).bracketed,
                    "Blue"@,
                ) == Some(a[1]@) && sp_tag(view_pgn(*self).bracketed, "Yellow"@) == Some(a[2]@)
                    && sp_tag(view_pgn(*self).bracketed, "Green"@) == Some(a[3]@),
                None => sp_tag(view_pgn(*self).bracketed, "Red"@) is None || sp_tag(
                    view_pgn(*self).bracketed,
                    "Blue"@,
                ) is None || sp_tag(view_pgn(*self).bracketed, "Yellow"@) is None || sp_tag(
                    view_pgn(*self).bracketed,
                    "Green"@,
                ) is None,
            },
    {
        let red = match self.tag("Red") {
            Some(v) => v,
            None => {
                return None;
            },
        };
        let blue = match self.tag("Blue") {
            Some(v) => v,
            None => {
                return None;
            },
        };
        let yellow = match self.tag("Yellow") {
            Some(v) => v,
            None => {
                return None;
            },
        };
        let green = match self.tag("Green") {
            Some(v) => v,
            None => {
                return None;
            },
        };
        Some([red, blue, yellow, green])
    }

    /// The parsed "Result" tag: the fixed drawn/won/aborted forms, or a
    /// free-for-all score list checked against the named players, or
    /// `Error` when absent or malformed.
    pub fn result(&self) -> (r: GameResult)
        ensures
            r == sp_result(view_pgn(*self)),
    {
        proof {
            reveal_strlit("Result");
            reveal_strlit("Red");
            reveal_strlit("Blue");
            reveal_strlit("Yellow");
            reveal_strlit("Green");
            reveal_strlit("Aborted");
            reveal_strlit("Draw");
            reveal_strlit("1-0");
            reveal_strlit("0-1");
            assert("Result"@ =~= seq!['R', 'e', 's', 'u', 'l', 't']);
            assert("Red"@ =~= seq!['R', 'e', 'd']);
            assert("Blue"@ =~= seq!['B', 'l', 'u', 'e']);
            assert("Yellow"@ =~= seq!['Y', 'e', 'l', 'l', 'o', 'w']);
            assert("Green"@ =~= seq!['G', 'r', 'e', 'e', 'n']);
            assert("Aborted"@ =~= seq!['A', 'b', 'o', 'r', 't', 'e', 'd']);
            assert("Draw"@ =~= seq!['D', 'r', 'a', 'w']);
            assert("1-0"@ =~= seq!['1', '-', '0']);
            assert("0-1"@ =~= seq!['0', '-', '1']);
        }
        let result = match self.tag("Result") {
            Some(v) => v,
            None => {
                return GameResult::Error;
            },
        };
        if str_eq(result, "Aborted") {
            proof {
                assert("Aborted"@ =~= seq!['A', 'b', 'o', 'r', 't', 'e', 'd']);
            }
            return GameResult::Aborted;
        }
        if str_eq(result, "Draw") {
            proof {
                assert("Draw"@ =~= seq!['D', 'r', 'a', 'w']);
            }
            return GameResult::Team(false, false);
        }
        if str_eq(result, "1-0") {
            proof {
                assert("1-0"@ =~= seq!['1', '-', '0']);
            }
            return GameResult::Team(true, false);
        }
        if str_eq(result, "0-1") {
            proof {
                assert("0-1"@ =~= seq!['0', '-', '1']);
            }
            return GameResult::Team(false, true);
        }
        proof {
            assert(result@ != seq!['A', 'b', 'o', 'r', 't', 'e', 'd']);
            assert(result@ != seq!['D', 'r', 'a', 'w']);
            assert(result@ != seq!['1', '-', '0']);
            assert(result@ != seq!['0', '-', '1']);
        }
        let rv = str_chars(result);
        let segs = split_dash(rv.as_slice());
        let ghost segs_v = sp_split_dash(result@);
        let names: [Option<&str>; 4] = [
            self.tag("Red"),
            self.tag("Blue"),
            self.tag("Yellow"),
            self.tag("Green"),
        ];
        let ghost colors = seat_names(view_pgn(*self));
        proof {
            assert(colors.len() == 4);
        }
        let mut scores: [u16; 4] = [0u16, 0u16, 0u16, 0u16];
        let mut si: usize = 0;
        let mut i: usize = 0;
        while i < 4
            invariant
                i <= 4,
                si <= segs@.len(),
                segs@.len() == segs_v.len(),
                forall|k: int| 0 <= k < segs@.len() ==> (#[trigger] segs@[k])@ == segs_v[k],
                colors == seat_names(view_pgn(*self)),
                colors.len() == 4,
                match names@[0] {
                    Some(v) => colors[0] == Some(v@),
                    None => colors[0] is None,
                },
                match names@[1] {
                    Some(v) => colors[1] == Some(v@),
                    None => colors[1] is None,
                },
                match names@[2] {
                    Some(v) => colors[2] == Some(v@),
                    None => colors[2] is None,
                },
                match names@[3] {
                    Some(v) => colors[3] == Some(v@),
                    None => colors[3] is None,
                },
                sp_result(view_pgn(*self)) == sp_ffa(
                    segs_v,
                    colors,
                    0,
                    0,
                    seq![0u16, 0u16, 0u16, 0u16],
                ),
                sp_ffa(segs_v, colors, 0, 0, seq![0u16, 0u16, 0u16, 0u16]) == sp_ffa(
                    segs_v,
                    colors,
                    i as int,
                    si as int,
                    scores@,
                ),
            decreases 4 - i,
        {
            let name = match &names[i] {
                Some(v) => *v,
                None => {
                    i += 1;
                    continue ;
                },
            };
            if si >= segs.len() {
                proof {
                    assert(colors[i as int] is Some);
                    assert(sp_ffa(segs_v, colors, i as int, si as int, scores@)
                        == GameResult::Error);
                }
                return GameResult::Error;
            }
            let seg = trim_both(segs[si]);
            let parts = split_colon(seg);
            let ghost parts_v = sp_split_colon(trim_ws(segs_v[si as int]));
            proof {
                assert(seg@ == trim_ws(segs_v[si as int]));
            }
            if parts.len() != 2 {
                proof {
                    assert(colors[i as int] == Some(name@));
                    assert(sp_ffa_segment(segs_v[si as int], colors[i as int]->0) is None);
                    assert(sp_ffa(segs_v, colors, i as int, si as int, scores@)
                        == GameResult::Error);
                }
                return GameResult::Error;
            }
            let nm = trim_both(parts[0]);
            let sc = trim_both(parts[1]);
            proof {
                assert(parts@[0]@ == parts_v[0] && parts@[1]@ == parts_v[1]);
            }
            let same = chars_eq_str(nm, name);
            if !same {
                proof {
                    assert(colors[i as int] == Some(name@));
                    assert(nm@ != name@);
                    assert(sp_ffa_segment(segs_v[si as int], colors[i as int]->0) is None);
                    assert(sp_ffa(segs_v, colors, i as int, si as int, scores@)
                        == GameResult::Error);
                }
                return GameResult::Error;
            }
            let v = match parse_u16(sc) {
                Some(v) => v,
                None => {
                    proof {
                        assert(colors[i as int] == Some(name@));
                        assert(sp_ffa_segment(segs_v[si as int], colors[i as int]->0) is None);
                        assert(sp_ffa(segs_v, colors, i as int, si as int, scores@)
                            == GameResult::Error);
                    }
                    return GameResult::Error;
                },
            };
            proof {
                assert(colors[i as int] == Some(name@));
                assert(sp_ffa_segment(segs_v[si as int], colors[i as int]->0) == Some(v));
            }
            let ghost old_scores = scores@;
            scores[i] = v;
            proof {
                assert(scores@ =~= old_scores.update(i as int, v));
            }
            si += 1;
            i += 1;
        }
        if si < segs.len() {
            proof {
                assert(sp_ffa(segs_v, colors, 4, si as int, scores@) == GameResult::Error);
            }
            return GameResult::Error;
        }
        proof {
            assert(sp_ffa(segs_v, colors, 4, si as int, scores@) == GameResult::FFA(
                [scores@[0], scores@[1], scores@[2], scores@[3]],
            ));
            assert([scores@[0], scores@[1], scores@[2], scores@[3]]@ =~= scores@);
        }
        GameResult::FFA([scores[0], scores[1], scores[2], scores[3]])
    }
}

} // verus!

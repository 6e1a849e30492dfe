//! The text form of a peer address, `a.b.c.d:port`, and its six-byte wire
//! form: four address bytes, then the port in big-endian order.

use vstd::prelude::*;
use vstd::string::*;
use crate::decimal::{
    all_digits, chars_of, decimal, is_digit, lemma_decimal_digits, lemma_parse_decimal,
    parse_decimal, parse_unsigned, push_decimal,
};

verus! {

/// The position of the first `c` in `s`, if any.
pub open spec fn index_of(s: Seq<char>, c: char) -> Option<int>
    decreases s.len(),
{
    if s.len() == 0 {
        None
    } else if s[0] == c {
        Some(0)
    } else {
        match index_of(s.drop_first(), c) {
            Some(i) => Some(i + 1),
            None => None,
        }
    }
}

/// `index_of` finds the first occurrence, or reports that there is none.
pub proof fn lemma_index_of(s: Seq<char>, c: char)
    ensures
        match index_of(s, c) {
            Some(i) => 0 <= i < s.len() && s[i] == c && forall|k: int|
                0 <= k < i ==> s[k] != c,
            None => forall|k: int| 0 <= k < s.len() ==> s[k] != c,
        },
    decreases s.len(),
{
    if s.len() > 0 && s[0] != c {
        lemma_index_of(s.drop_first(), c);
        match index_of(s.drop_first(), c) {
            Some(i) => {
                assert forall|k: int| 0 <= k < i + 1 implies s[k] != c by {
                    if k > 0 {
                        assert(s[k] == s.drop_first()[k - 1]);
                    }
                }
            },
            None => {
                assert forall|k: int| 0 <= k < s.len() implies s[k] != c by {
                    if k > 0 {
                        assert(s[k] == s.drop_first()[k - 1]);
                    }
                }
            },
        }
    }
}

/// The pieces of `s` between occurrences of `c`, as `str::split` yields
/// them: always at least one, and an empty piece between adjacent
/// separators or at either end.
pub open spec fn split(s: Seq<char>, c: char) -> Seq<Seq<char>>
    decreases s.len(),
{
    match index_of(s, c) {
        None => seq![s],
        Some(i) => {
            proof {
                lemma_index_of(s, c);
            }
            seq![s.take(i)] + split(s.skip(i + 1), c)
        },
    }
}

/// The six bytes that the address text `s` stands for, or `None` where the
/// game panics on it: the text before the first `:` is split at each `.`,
/// every section must parse as a `u8` and there must be at least four (the
/// first four are used); the text between the first `:` and the next one
/// (or the end) must parse as a `u16`, the port.
pub open spec fn ip_bytes(s: Seq<char>) -> Option<Seq<u8>> {
    let parts = split(s, ':');
    let secs = split(parts[0], '.');
    if parts.len() >= 2 && secs.len() >= 4 && (forall|i: int|
        0 <= i < secs.len() ==> parse_unsigned(#[trigger] secs[i], 255) is Some) && parse_unsigned(
        parts[1],
        65535,
    ) is Some {
        let port = parse_unsigned(parts[1], 65535).unwrap();
        Some(
            seq![
                parse_unsigned(secs[0], 255).unwrap() as u8,
                parse_unsigned(secs[1], 255).unwrap() as u8,
                parse_unsigned(secs[2], 255).unwrap() as u8,
                parse_unsigned(secs[3], 255).unwrap() as u8,
                (port / 256) as u8,
                (port % 256) as u8,
            ],
        )
    } else {
        None
    }
}

/// The port that the fifth and sixth bytes hold, big-endian.
pub open spec fn port_of(b: Seq<u8>) -> nat {
    (b[4] as nat) * 256 + (b[5] as nat)
}

/// The text `a.b.c.d:port` of the first six bytes of `b`, each number in
/// decimal.
pub open spec fn ip_string(b: Seq<u8>) -> Seq<char> {
    decimal(b[0] as nat) + seq!['.'] + decimal(b[1] as nat) + seq!['.'] + decimal(b[2] as nat)
        + seq!['.'] + decimal(b[3] as nat) + seq![':'] + decimal(port_of(b))
}

/// Where `x` holds no `c`, splitting `x`, `c`, `y` at `c` gives `x` and then
/// the pieces of `y`.
proof fn lemma_split_after(x: Seq<char>, c: char, y: Seq<char>)
    requires
        forall|k: int| 0 <= k < x.len() ==> x[k] != c,
    ensures
        split(x + seq![c] + y, c) == seq![x] + split(y, c),
{
    let s = x + seq![c] + y;
    lemma_index_of(s, c);
    assert(s[x.len() as int] == c);
    match index_of(s, c) {
        Some(i) => {
            if i < x.len() {
                assert(s[i] == x[i]);
            }
            assert(i == x.len());
            assert(s.take(i) == x);
            assert(s.skip(i + 1) == y);
        },
        None => {},
    }
}

/// A text without `c` is a single piece.
proof fn lemma_split_none(x: Seq<char>, c: char)
    requires
        forall|k: int| 0 <= k < x.len() ==> x[k] != c,
    ensures
        split(x, c) == seq![x],
{
    lemma_index_of(x, c);
    match index_of(x, c) {
        Some(i) => {},
        None => {},
    }
}

proof fn lemma_digits_free_of(x: Seq<char>, c: char)
    requires
        all_digits(x),
        !is_digit(c),
    ensures
        forall|k: int| 0 <= k < x.len() ==> x[k] != c,
{
    assert forall|k: int| 0 <= k < x.len() implies x[k] != c by {
        assert(is_digit(x[k]));
    }
}

/// Writing six bytes as address text and reading the text back gives the
/// same six bytes.
pub proof fn lemma_ip_roundtrip(b: Seq<u8>)
    requires
        b.len() >= 6,
    ensures
        ip_bytes(ip_string(b)) == Some(b.take(6)),
{
    let d0 = decimal(b[0] as nat);
    let d1 = decimal(b[1] as nat);
    let d2 = decimal(b[2] as nat);
    let d3 = decimal(b[3] as nat);
    let port = port_of(b);
    let dp = decimal(port);
    lemma_decimal_digits(b[0] as nat);
    lemma_decimal_digits(b[1] as nat);
    lemma_decimal_digits(b[2] as nat);
    lemma_decimal_digits(b[3] as nat);
    lemma_decimal_digits(port);
    assert(!is_digit('.'));
    assert(!is_digit(':'));
    let host = d0 + seq!['.'] + d1 + seq!['.'] + d2 + seq!['.'] + d3;
    assert(ip_string(b) == host + seq![':'] + dp);
    assert forall|k: int| 0 <= k < host.len() implies host[k] != ':' by {
        lemma_digits_free_of(d0, ':');
        lemma_digits_free_of(d1, ':');
        lemma_digits_free_of(d2, ':');
        lemma_digits_free_of(d3, ':');
        if k < d0.len() {
            assert(host[k] == d0[k]);
        } else if k < d0.len() + 1 {
        } else if k < d0.len() + 1 + d1.len() {
            assert(host[k] == d1[k - d0.len() - 1]);
        } else if k < d0.len() + 2 + d1.len() {
        } else if k < d0.len() + 2 + d1.len() + d2.len() {
            assert(host[k] == d2[k - d0.len() - 2 - d1.len()]);
        } else if k < d0.len() + 3 + d1.len() + d2.len() {
        } else {
            assert(host[k] == d3[k - d0.len() - 3 - d1.len() - d2.len()]);
        }
    }
    lemma_split_after(host, ':', dp);
    lemma_digits_free_of(dp, ':');
    lemma_split_none(dp, ':');
    let parts = split(ip_string(b), ':');
    assert(parts == seq![host, dp]);
    lemma_digits_free_of(d0, '.');
    lemma_digits_free_of(d1, '.');
    lemma_digits_free_of(d2, '.');
    lemma_digits_free_of(d3, '.');
    assert(host == d0 + seq!['.'] + (d1 + seq!['.'] + (d2 + seq!['.'] + d3)));
    assert(d1 + seq!['.'] + (d2 + seq!['.'] + d3) == d1 + seq!['.'] + d2 + seq!['.'] + d3);
    lemma_split_after(d0, '.', d1 + seq!['.'] + d2 + seq!['.'] + d3);
    assert(d1 + seq!['.'] + d2 + seq!['.'] + d3 == d1 + seq!['.'] + (d2 + seq!['.'] + d3));
    lemma_split_after(d1, '.', d2 + seq!['.'] + d3);
    lemma_split_after(d2, '.', d3);
    lemma_split_none(d3, '.');
    let secs = split(host, '.');
    assert(secs == seq![d0, d1, d2, d3]);
    lemma_parse_decimal(b[0] as nat, 255);
    lemma_parse_decimal(b[1] as nat, 255);
    lemma_parse_decimal(b[2] as nat, 255);
    lemma_parse_decimal(b[3] as nat, 255);
    lemma_parse_decimal(port, 65535);
    assert(port / 256 == b[4] as nat);
    assert(port % 256 == b[5] as nat);
    assert(ip_bytes(ip_string(b)).unwrap() == b.take(6));
}


/// The position of the first `c` in `s[lo..hi]`, counted from the start of
/// `s`.
fn find_char(s: &Vec<char>, lo: usize, hi: usize, c: char) -> (r: Option<usize>)
    requires
        lo <= hi <= s.len(),
    ensures
        match r {
            Some(j) => lo <= j < hi && index_of(s@.subrange(lo as int, hi as int), c) == Some(
                j - lo,
            ),
            None => index_of(s@.subrange(lo as int, hi as int), c) is None,
        },
{
    let ghost t = s@.subrange(lo as int, hi as int);
    proof {
        lemma_index_of(t, c);
    }
    let mut i = lo;
    while i < hi
        invariant
            lo <= i <= hi <= s.len(),
            t == s@.subrange(lo as int, hi as int),
            forall|k: int| 0 <= k < i - lo ==> t[k] != c,
            match index_of(t, c) {
                Some(j) => 0 <= j < t.len() && t[j] == c && forall|k: int| 0 <= k < j ==> t[k] != c,
                None => forall|k: int| 0 <= k < t.len() ==> t[k] != c,
            },
        decreases hi - i,
    {
        if s[i] == c {
            proof {
                let ii = i - lo;
                assert(t[ii] == c);
                match index_of(t, c) {
                    Some(j) => {
                        if j > ii {
                            assert(t[ii] != c);
                        }
                    },
                    None => {
                        assert(t[ii] != c);
                    },
                }
            }
            return Some(i);
        }
        i += 1;
    }
    proof {
        match index_of(t, c) {
            Some(j) => {
                assert(t[j] != c);
            },
            None => {},
        }
    }
    None
}

/// The six bytes that the address text `ip` stands for, or `None` where
/// `ip_bytes` says there are none.
pub fn parse_ip(ip: &str) -> (r: Option<Vec<u8>>)
    ensures
        match r {
            Some(v) => ip_bytes(ip@) == Some(v@),
            None => ip_bytes(ip@) is None,
        },
{
    let chars = chars_of(ip);
    let n = chars.len();
    let ghost all = chars@;
    assert(all.subrange(0, n as int) == all);
    let colon = match find_char(&chars, 0, n, ':') {
        Some(j) => j,
        None => {
            assert(split(all, ':') == seq![all]);
            return None;
        },
    };
    let ghost p0 = all.subrange(0, colon as int);
    let ghost rest = all.subrange(colon + 1, n as int);
    proof {
        assert(all.take(colon as int) == p0);
        assert(all.skip(colon + 1) == rest);
        assert(split(all, ':') == seq![p0] + split(rest, ':'));
    }
    let end = match find_char(&chars, colon + 1, n, ':') {
        Some(j) => j,
        None => n,
    };
    let ghost p1 = all.subrange(colon + 1, end as int);
    proof {
        match index_of(rest, ':') {
            Some(j) => {
                assert(rest.take(j) == p1);
            },
            None => {
                assert(rest == p1);
            },
        }
        assert(split(rest, ':')[0] == p1);
        assert(split(all, ':')[0] == p0);
        assert(split(all, ':')[1] == p1);
    }
    let mut secs: Vec<u8> = Vec::new();
    let mut count: usize = 0;
    let mut pos: usize = 0;
    let ghost mut done: Seq<Seq<char>> = seq![];
    loop
        invariant_except_break
            pos <= colon,
            count <= pos,
            split(p0, '.') == done + split(all.subrange(pos as int, colon as int), '.'),
        invariant
            colon < n == chars.len(),
            all == chars@,
            p0 == all.subrange(0, colon as int),
            all == ip@,
            split(all, ':')[0] == p0,
            count <= colon + 1,
            count == done.len(),
            forall|i: int| 0 <= i < done.len() ==> parse_unsigned(#[trigger] done[i], 255) is Some,
            secs@.len() == if count < 4 { count as int } else { 4 },
            forall|i: int|
                0 <= i < secs@.len() ==> #[trigger] secs@[i] == parse_unsigned(done[i], 255).unwrap()
                    as u8,
        ensures
            split(p0, '.') == done,
        decreases colon - pos,
    {
        let ghost sub = all.subrange(pos as int, colon as int);
        let dot = find_char(&chars, pos, colon, '.');
        let piece_end = match dot {
            Some(j) => j,
            None => colon,
        };
        let ghost piece = all.subrange(pos as int, piece_end as int);
        proof {
            match index_of(sub, '.') {
                Some(j) => {
                    assert(sub.take(j) == piece);
                    assert(sub.skip(j + 1) == all.subrange(piece_end + 1, colon as int));
                },
                None => {
                    assert(sub == piece);
                },
            }
        }
        let v = match parse_decimal(&chars, pos, piece_end, 255) {
            Some(v) => v,
            None => {
                proof {
                    let secs_spec = split(p0, '.');
                    assert(secs_spec[done.len() as int] == piece);
                    assert(parse_unsigned(secs_spec[done.len() as int], 255) is None);
                }
                return None;
            },
        };
        if count < 4 {
            secs.push(v as u8);
        }
        proof {
            done = done.push(piece);
        }
        count += 1;
        match dot {
            Some(j) => {
                pos = j + 1;
                proof {
                    assert(split(p0, '.') == done + split(all.subrange(pos as int, colon as int), '.'));
                }
            },
            None => {
                break;
            },
        }
    }
    if count < 4 {
        return None;
    }
    let port = match parse_decimal(&chars, colon + 1, end, 65535) {
        Some(v) => v,
        None => return None,
    };
    let mut out: Vec<u8> = Vec::new();
    out.push(secs[0]);
    out.push(secs[1]);
    out.push(secs[2]);
    out.push(secs[3]);
    out.push((port / 256) as u8);
    out.push((port % 256) as u8);
    proof {
        assert(split(all, ':')[0] == p0);
        assert(out@ == ip_bytes(ip@).unwrap());
    }
    Some(out)
}

/// The address text of the six bytes of `b` that start at `off`.
pub fn ip_string_at(b: &[u8], off: usize) -> (s: String)
    requires
        off + 6 <= b.len(),
    ensures
        s@ == ip_string(b@.subrange(off as int, off + 6)),
{
    proof {
        reveal_strlit(".");
        reveal_strlit(":");
    }
    let mut s = String::new();
    push_decimal(&mut s, b[off] as u32);
    s.append(".");
    push_decimal(&mut s, b[off + 1] as u32);
    s.append(".");
    push_decimal(&mut s, b[off + 2] as u32);
    s.append(".");
    push_decimal(&mut s, b[off + 3] as u32);
    s.append(":");
    let port = (b[off + 4] as u32) * 256 + (b[off + 5] as u32);
    push_decimal(&mut s, port);
    let ghost w = b@.subrange(off as int, off + 6);
    assert(port as nat == port_of(w));
    assert(s@ == ip_string(w));
    s
}

} // verus!

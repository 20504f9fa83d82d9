//! Protocol versions: whether two peers can talk, and their dotted text.
use vstd::prelude::*;

use crate::structs::Version;
use crate::text::{decimal, digit_char, push_char, push_decimal};

verus! {

/// Whether a receiver of one version can serve a sender of another.
#[derive(Debug, Clone, Copy, PartialEq, Eq, Structural)]
pub enum VersionCompatibility {
    Compatible,
    Incompatible,
}

/// Peers agree on the major version, and the receiver is at least as new
/// as the sender in the minor version; the patch level does not matter.
pub open spec fn compatible(server: Version, client: Version) -> bool {
    server.major == client.major && server.minor >= client.minor
}

/// Decides whether a receiver at `server_version` serves a sender at
/// `client_version`.
pub fn compare_versions(server_version: &Version, client_version: &Version) -> (r:
    VersionCompatibility)
    ensures
        r == VersionCompatibility::Compatible <==> compatible(*server_version, *client_version),
{
    if server_version.major != client_version.major {
        VersionCompatibility::Incompatible
    } else if server_version.minor < client_version.minor {
        VersionCompatibility::Incompatible
    } else {
        VersionCompatibility::Compatible
    }
}

/// `major.minor.patch` in decimal.
pub open spec fn version_text(v: Version) -> Seq<char> {
    decimal(v.major as nat) + seq!['.'] + decimal(v.minor as nat) + seq!['.'] + decimal(
        v.patch as nat,
    )
}

impl Version {
    /// The version as `major.minor.patch`.
    pub fn to_string(&self) -> (r: String)
        ensures
            r@ == version_text(*self),
    {
        let mut s = String::new();
        push_decimal(&mut s, self.major as u64);
        push_char(&mut s, '.');
        push_decimal(&mut s, self.minor as u64);
        push_char(&mut s, '.');
        push_decimal(&mut s, self.patch as u64);
        proof {
            assert(s@ =~= version_text(*self));
        }
        s
    }
}

pub open spec fn is_digit(c: char) -> bool {
    '0' <= c && c <= '9'
}

pub open spec fn all_digits(t: Seq<char>) -> bool {
    forall|k: int| 0 <= k < t.len() ==> is_digit(#[trigger] t[k])
}

/// The value of a run of decimal digits.
pub open spec fn digits_value(t: Seq<char>) -> nat
    decreases t.len(),
{
    if t.len() == 0 {
        0
    } else {
        digits_value(t.drop_last()) * 10 + (t.last() as nat - 48) as nat
    }
}

/// A non-empty run of decimal digits whose value a `u32` holds.
pub open spec fn is_number(t: Seq<char>) -> bool {
    &&& t.len() > 0
    &&& all_digits(t)
    &&& digits_value(t) <= u32::MAX
}

/// The pieces of `s` between its dots, in order; there is always one more
/// piece than there are dots.
pub open spec fn dot_fields(s: Seq<char>) -> Seq<Seq<char>>
    decreases s.len(),
{
    if s.len() == 0 {
        seq![Seq::empty()]
    } else {
        let init = dot_fields(s.drop_last());
        if s.last() == '.' {
            init.push(Seq::empty())
        } else if init.len() == 0 {
            init
        } else {
            init.update(init.len() - 1, init.last().push(s.last()))
        }
    }
}

/// The version that `major.minor.patch` text denotes: exactly three
/// dot-separated decimal numbers, each of which fits a `u32`.
pub open spec fn version_from_text(s: Seq<char>) -> Option<Version> {
    let f = dot_fields(s);
    if f.len() == 3 && is_number(f[0]) && is_number(f[1]) && is_number(f[2]) {
        Some(
            Version {
                major: digits_value(f[0]) as u32,
                minor: digits_value(f[1]) as u32,
                patch: digits_value(f[2]) as u32,
            },
        )
    } else {
        None
    }
}

/// Nothing read so far rules the text out: at most three pieces, the
/// finished ones numbers, the open one digits that a `u32` holds.
spec fn prefix_ok(f: Seq<Seq<char>>) -> bool {
    &&& 1 <= f.len() <= 3
    &&& forall|k: int| 0 <= k < f.len() - 1 ==> is_number(#[trigger] f[k])
    &&& all_digits(f.last())
    &&& digits_value(f.last()) <= u32::MAX
}

proof fn lemma_dot_fields_nonempty(s: Seq<char>)
    ensures
        dot_fields(s).len() >= 1,
    decreases s.len(),
{
    if s.len() > 0 {
        lemma_dot_fields_nonempty(s.drop_last());
    }
}

proof fn lemma_digits_value_grows(t: Seq<char>, c: char)
    requires
        is_digit(c),
    ensures
        digits_value(t.push(c)) == digits_value(t) * 10 + (c as nat - 48),
        digits_value(t.push(c)) >= digits_value(t),
{
    assert(t.push(c).drop_last() =~= t);
}

/// Once a prefix rules the text out, every longer prefix does too.
proof fn lemma_refusal_stays(s: Seq<char>, i: int)
    requires
        0 <= i < s.len(),
        !prefix_ok(dot_fields(s.take(i))),
    ensures
        !prefix_ok(dot_fields(s.take(i + 1))),
{
    let f = dot_fields(s.take(i));
    let c = s[i];
    assert(s.take(i + 1).drop_last() =~= s.take(i));
    lemma_dot_fields_nonempty(s.take(i));
    let g = dot_fields(s.take(i + 1));
    if c == '.' {
        assert(g == f.push(Seq::empty()));
        if f.len() >= 1 && f.len() <= 3 {
            if !(forall|k: int| 0 <= k < f.len() - 1 ==> is_number(#[trigger] f[k])) {
                let k = choose|k: int| 0 <= k < f.len() - 1 && !is_number(#[trigger] f[k]);
                assert(g[k] == f[k]);
            } else {
                assert(g[f.len() - 1] == f.last());
            }
        }
    } else {
        let last = f.last().push(c);
        assert(g == f.update(f.len() - 1, last));
        if f.len() <= 3 {
            if !(forall|k: int| 0 <= k < f.len() - 1 ==> is_number(#[trigger] f[k])) {
                let k = choose|k: int| 0 <= k < f.len() - 1 && !is_number(#[trigger] f[k]);
                assert(g[k] == f[k]);
            } else if !all_digits(f.last()) {
                let k = choose|k: int| 0 <= k < f.last().len() && !is_digit(#[trigger] f.last()[k]);
                assert(last[k] == f.last()[k]);
            } else if is_digit(c) {
                lemma_digits_value_grows(f.last(), c);
            } else {
                assert(last[last.len() - 1] == c);
            }
        }
    }
}

pub open spec fn no_dots(t: Seq<char>) -> bool {
    forall|k: int| 0 <= k < t.len() ==> #[trigger] t[k] != '.'
}

/// Text without a dot only lengthens the last piece.
proof fn lemma_dot_fields_extend(p: Seq<char>, t: Seq<char>)
    requires
        no_dots(t),
    ensures
        dot_fields(p + t) == dot_fields(p).update(
            dot_fields(p).len() - 1,
            dot_fields(p).last() + t,
        ),
    decreases t.len(),
{
    lemma_dot_fields_nonempty(p);
    let f = dot_fields(p);
    if t.len() == 0 {
        assert(p + t =~= p);
        assert(f.last() + t =~= f.last());
        assert(f.update(f.len() - 1, f.last() + t) =~= f);
    } else {
        let u = t.drop_last();
        assert(no_dots(u)) by {
            assert forall|k: int| 0 <= k < u.len() implies #[trigger] u[k] != '.' by {
                assert(u[k] == t[k]);
            }
        }
        lemma_dot_fields_extend(p, u);
        lemma_dot_fields_nonempty(p + u);
        assert((p + t).drop_last() =~= p + u);
        assert((p + t).last() == t.last());
        assert(t.last() == t[t.len() - 1]);
        assert(f.last() + u.push(t.last()) =~= f.last() + t);
        assert(u.push(t.last()) =~= t);
        assert(dot_fields(p + t) =~= f.update(f.len() - 1, f.last() + t));
    }
}

proof fn lemma_decimal_is_number(n: nat)
    ensures
        decimal(n).len() > 0,
        all_digits(decimal(n)),
        no_dots(decimal(n)),
        digits_value(decimal(n)) == n,
    decreases n,
{
    let c = digit_char(n % 10);
    assert((c as nat) == 48 + n % 10);
    if n < 10 {
        let d = decimal(n);
        assert(d =~= seq![c]);
        assert(d.drop_last() =~= Seq::<char>::empty());
        assert(digits_value(d.drop_last()) == 0);
        assert(d.last() == c);
        assert(digits_value(d) == n);
    } else {
        lemma_decimal_is_number(n / 10);
        let init = decimal(n / 10);
        let d = decimal(n);
        assert(d == init.push(c));
        assert(d.drop_last() =~= init);
        assert(is_digit(c));
        lemma_digits_value_grows(init, c);
        assert((n / 10) * 10 + n % 10 == n) by (nonlinear_arith);
        assert(digits_value(d) == digits_value(init) * 10 + (c as nat - 48));
        assert(digits_value(d) == n);
        assert forall|k: int| 0 <= k < d.len() implies is_digit(#[trigger] d[k]) && d[k] != '.' by {
            if k < init.len() {
                assert(d[k] == init[k]);
            }
        }
    }
}

/// Reading the text of a version gives back that version.
pub proof fn lemma_version_text_round_trip(v: Version)
    ensures
        version_from_text(version_text(v)) == Some(v),
{
    let (a, b, c) = (decimal(v.major as nat), decimal(v.minor as nat), decimal(v.patch as nat));
    lemma_decimal_is_number(v.major as nat);
    lemma_decimal_is_number(v.minor as nat);
    lemma_decimal_is_number(v.patch as nat);
    let e = Seq::<char>::empty();
    assert(dot_fields(e) == seq![e]);
    lemma_dot_fields_extend(e, a);
    assert(e + a =~= a);
    assert(dot_fields(a) =~= seq![a]);
    let s1 = a.push('.');
    assert(s1.drop_last() =~= a);
    assert(dot_fields(s1) =~= seq![a, e]);
    lemma_dot_fields_extend(s1, b);
    let s2 = s1 + b;
    assert(dot_fields(s2) =~= seq![a, b]);
    let s3 = s2.push('.');
    assert(s3.drop_last() =~= s2);
    assert(dot_fields(s3) =~= seq![a, b, e]);
    lemma_dot_fields_extend(s3, c);
    assert(dot_fields(s3 + c) =~= seq![a, b, c]);
    assert(s3 + c =~= version_text(v));
}

impl Version {
    /// Reads `major.minor.patch`; `None` for any other text.
    pub fn parse(text: &str) -> (r: Option<Version>)
        ensures
            r == version_from_text(text@),
    {
        let n = text.unicode_len();
        let mut fields: Vec<u32> = Vec::new();
        let mut cur: u64 = 0;
        let mut has_digits = false;
        let mut refused = false;
        let mut i: usize = 0;
        proof {
            assert(text@.take(0) =~= Seq::<char>::empty());
        }
        while i < n
            invariant
                n == text@.len(),
                i <= n,
                dot_fields(text@.take(i as int)).len() >= 1,
                refused <==> !prefix_ok(dot_fields(text@.take(i as int))),
                !refused ==> {
                    let f = dot_fields(text@.take(i as int));
                    &&& fields@.len() == f.len() - 1
                    &&& forall|k: int|
                        0 <= k < fields@.len() ==> fields@[k] as nat == digits_value(
                            #[trigger] f[k],
                        )
                    &&& cur as nat == digits_value(f.last())
                    &&& has_digits == (f.last().len() > 0)
                },
            decreases n - i,
        {
            let c = text.get_char(i);
            let ghost s = text@;
            let ghost f = dot_fields(s.take(i as int));
            proof {
                assert(s.take(i + 1).drop_last() =~= s.take(i as int));
                assert(s.take(i + 1).last() == c);
                lemma_dot_fields_nonempty(s.take(i + 1));
            }
            if refused {
                proof {
                    lemma_refusal_stays(s, i as int);
                }
            } else if c == '.' {
                proof {
                    assert(dot_fields(s.take(i + 1)) == f.push(Seq::empty()));
                }
                if fields.len() == 2 || !has_digits {
                    refused = true;
                    proof {
                        let g = dot_fields(s.take(i + 1));
                        assert(g[f.len() - 1] == f.last());
                    }
                } else {
                    fields.push(cur as u32);
                    cur = 0;
                    has_digits = false;
                    proof {
                        let g = dot_fields(s.take(i + 1));
                        assert(g[g.len() - 1] =~= Seq::<char>::empty());
                        assert forall|k: int| 0 <= k < g.len() - 1 implies g[k] == f[k] by {}
                        assert(fields@.last() as nat == digits_value(g[f.len() - 1]));
                    }
                }
            } else if '0' <= c && c <= '9' {
                let d = (c as u32 - 48) as u64;
                let v = cur * 10 + d;
                proof {
                    lemma_digits_value_grows(f.last(), c);
                    let g = dot_fields(s.take(i + 1));
                    assert(g == f.update(f.len() - 1, f.last().push(c)));
                    assert forall|k: int| 0 <= k < g.len() - 1 implies g[k] == f[k] by {}
                }
                if v > 0xffff_ffff {
                    refused = true;
                } else {
                    cur = v;
                    has_digits = true;
                    proof {
                        let g = dot_fields(s.take(i + 1));
                        assert(all_digits(g.last())) by {
                            assert forall|k: int| 0 <= k < g.last().len() implies is_digit(
                                #[trigger] g.last()[k],
                            ) by {
                                if k < f.last().len() {
                                    assert(g.last()[k] == f.last()[k]);
                                }
                            }
                        }
                    }
                }
            } else {
                refused = true;
                proof {
                    let g = dot_fields(s.take(i + 1));
                    assert(g == f.update(f.len() - 1, f.last().push(c)));
                    assert(g.last()[g.last().len() - 1] == c);
                }
            }
            i = i + 1;
        }
        proof {
            assert(text@.take(n as int) =~= text@);
        }
        if refused || fields.len() != 2 || !has_digits {
            None
        } else {
            Some(Version { major: fields[0], minor: fields[1], patch: cur as u32 })
        }
    }
}

} // verus!

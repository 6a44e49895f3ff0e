use vstd::prelude::*;

use crate::text::{
    all_digits, canonical_decimal, chars_of, decimal_text, decimal_value, digit_value, hex_text,
    is_digit, lemma_canonical_decimal, lemma_decimal_text, push_char, push_str, string_of,
    u64_hex_text, u64_text,
};

verus! {

/// The default port of federation traffic.
pub const DEFAULT_PORT: u16 = 8448;

/// An IP address: four octets, or eight 16-bit groups.
#[derive(Clone, Copy, Debug, PartialEq, Eq)]
pub enum IpAddress {
    V4([u8; 4]),
    V6([u16; 8]),
}

/// An IP address and a port.
#[derive(Clone, Copy, Debug, PartialEq, Eq)]
pub struct SocketAddress {
    pub ip: IpAddress,
    pub port: u16,
}

/// `o` written as a dotted quad, each octet in decimal without leading zeros.
pub open spec fn v4_text(o: Seq<u8>) -> Seq<char> {
    decimal_text(o[0] as nat) + seq!['.'] + decimal_text(o[1] as nat) + seq!['.'] + decimal_text(
        o[2] as nat,
    ) + seq!['.'] + decimal_text(o[3] as nat)
}

/// `t` is a port written in decimal (leading zeros allowed) with value `p`.
pub open spec fn port_text(t: Seq<char>, p: u16) -> bool {
    &&& t.len() >= 1
    &&& all_digits(t)
    &&& decimal_value(t) == p as nat
}

/// Reads the run of decimal digits at `pos` as one octet, which must be
/// written without leading zeros; returns the octet and where the run ends.
fn read_octet(cs: &Vec<char>, pos: usize, end: usize) -> (r: Option<(u8, usize)>)
    requires
        pos <= end <= cs@.len(),
    ensures
        r matches Some((v, q)) ==> pos < q <= end && cs@.subrange(pos as int, q as int)
            == decimal_text(v as nat) && (q == end || !is_digit(cs@[q as int])),
        forall|v: u8, q: int|
            #![trigger decimal_text(v as nat), cs@.subrange(pos as int, q)]
            pos < q <= end && cs@.subrange(pos as int, q) == decimal_text(v as nat) && (q == end
                || !is_digit(cs@[q])) ==> r == Some((v, q as usize)),
{
    let mut q: usize = pos;
    let mut value: u64 = 0;
    while q < end && '0' <= cs[q] && cs[q] <= '9' && q - pos < 4
        invariant
            pos <= q <= end <= cs@.len(),
            q - pos <= 4,
            all_digits(cs@.subrange(pos as int, q as int)),
            value == decimal_value(cs@.subrange(pos as int, q as int)),
            value < 10000,
        decreases end - q,
    {
        let ghost run = cs@.subrange(pos as int, q as int);
        let d = (cs[q] as u32 - '0' as u32) as u64;
        assert(value * 10 + d < 100000) by (nonlinear_arith)
            requires
                value < 10000,
                d < 10,
        ;
        value = value * 10 + d;
        q += 1;
        proof {
            let run2 = cs@.subrange(pos as int, q as int);
            assert(run2.drop_last() =~= run);
            assert(run2.last() == cs@[q - 1]);
            assert(d == digit_value(cs@[q - 1]));
            assert(all_digits(run2)) by {
                assert forall|i: int| 0 <= i < run2.len() implies is_digit(#[trigger] run2[i]) by {
                    if i < run.len() {
                        assert(run2[i] == run[i]);
                    }
                }
            }
            assert(value == decimal_value(run2));
            lemma_run_value_bound(run2);
        }
    }
    let ghost run = cs@.subrange(pos as int, q as int);
    proof {
        lemma_run_value_bound(run);
    }
    if q == pos || q - pos > 3 || (q - pos > 1 && cs[pos] == '0') || value > 255 {
        proof {
            assert forall|v: u8, q2: int|
                pos < q2 <= end && cs@.subrange(pos as int, q2) == decimal_text(v as nat) && (q2
                    == end || !is_digit(cs@[q2])) implies false by {
                lemma_decimal_text(v as nat);
                let t = decimal_text(v as nat);
                assert(t.len() <= 3);
                lemma_run_stops(cs@, pos as int, q as int, q2, end as int);
                assert(q2 == q);
                assert(t[0] == cs@[pos as int]);
            }
        }
        return None;
    }
    proof {
        assert(canonical_decimal(run)) by {
            if run.len() > 1 {
                assert(run[0] == cs@[pos as int]);
            }
        }
        lemma_canonical_decimal(run);
        assert forall|v: u8, q2: int|
            pos < q2 <= end && cs@.subrange(pos as int, q2) == decimal_text(v as nat) && (q2
                == end || !is_digit(cs@[q2])) implies Some((value as u8, q)) == Some((v, q2 as usize)) by {
            lemma_decimal_text(v as nat);
            lemma_run_stops(cs@, pos as int, q as int, q2, end as int);
        }
    }
    Some((value as u8, q))
}

/// A run of at most three digits is below a thousand, of at most two below a hundred.
proof fn lemma_run_value_bound(s: Seq<char>)
    requires
        all_digits(s),
    ensures
        s.len() <= 4 ==> decimal_value(s) < 10000,
        s.len() <= 3 ==> decimal_value(s) < 1000,
        s.len() <= 2 ==> decimal_value(s) < 100,
        s.len() <= 1 ==> decimal_value(s) < 10,
    decreases s.len(),
{
    if s.len() > 0 {
        let p = s.drop_last();
        assert(all_digits(p)) by {
            assert forall|i: int| 0 <= i < p.len() implies is_digit(#[trigger] p[i]) by {
                assert(p[i] == s[i]);
            }
        }
        lemma_run_value_bound(p);
        assert(is_digit(s[s.len() - 1]));
    }
}

/// The digit scan from `pos` stopped at `q` (a non-digit, the end, or four
/// digits); a run of at most three digits followed by a non-digit ends there.
proof fn lemma_run_stops(cs: Seq<char>, pos: int, q: int, q2: int, end: int)
    requires
        0 <= pos < q2 <= end <= cs.len(),
        pos <= q <= end,
        q - pos <= 4,
        all_digits(cs.subrange(pos, q)),
        q == end || !is_digit(cs[q]) || q - pos == 4,
        all_digits(cs.subrange(pos, q2)),
        q2 - pos <= 3,
        q2 == end || !is_digit(cs[q2]),
    ensures
        q == q2,
{
    if q < q2 {
        assert(cs.subrange(pos, q2)[q - pos] == cs[q]);
    }
    if q2 < q {
        assert(cs.subrange(pos, q)[q2 - pos] == cs[q2]);
    }
}

/// Where the parts of a dotted quad lie in `cs[from..to]`, when it is one.
proof fn lemma_v4_layout(cs: Seq<char>, from: int, to: int, o: Seq<u8>)
    requires
        0 <= from <= to <= cs.len(),
        o.len() == 4,
        cs.subrange(from, to) == v4_text(o),
    ensures
        ({
            let l0 = decimal_text(o[0] as nat).len() as int;
            let l1 = decimal_text(o[1] as nat).len() as int;
            let l2 = decimal_text(o[2] as nat).len() as int;
            let l3 = decimal_text(o[3] as nat).len() as int;
            let p1 = from + l0;
            let p2 = p1 + 1 + l1;
            let p3 = p2 + 1 + l2;
            &&& l0 >= 1 && l1 >= 1 && l2 >= 1 && l3 >= 1
            &&& p3 + 1 + l3 == to
            &&& cs.subrange(from, p1) == decimal_text(o[0] as nat)
            &&& cs[p1] == '.'
            &&& cs.subrange(p1 + 1, p2) == decimal_text(o[1] as nat)
            &&& cs[p2] == '.'
            &&& cs.subrange(p2 + 1, p3) == decimal_text(o[2] as nat)
            &&& cs[p3] == '.'
            &&& cs.subrange(p3 + 1, to) == decimal_text(o[3] as nat)
        }),
{
    let t0 = decimal_text(o[0] as nat);
    let t1 = decimal_text(o[1] as nat);
    let t2 = decimal_text(o[2] as nat);
    let t3 = decimal_text(o[3] as nat);
    lemma_decimal_text(o[0] as nat);
    lemma_decimal_text(o[1] as nat);
    lemma_decimal_text(o[2] as nat);
    lemma_decimal_text(o[3] as nat);
    let s = cs.subrange(from, to);
    let p1 = from + t0.len();
    let p2 = p1 + 1 + t1.len();
    let p3 = p2 + 1 + t2.len();
    assert(s.len() == t0.len() + t1.len() + t2.len() + t3.len() + 3);
    assert(cs.subrange(from, p1) =~= t0) by {
        assert forall|i: int| 0 <= i < t0.len() implies cs.subrange(from, p1)[i] == t0[i] by {
            assert(s[i] == cs[from + i]);
        }
    }
    assert(cs[p1] == s[p1 - from]);
    assert(cs.subrange(p1 + 1, p2) =~= t1) by {
        assert forall|i: int| 0 <= i < t1.len() implies cs.subrange(p1 + 1, p2)[i] == t1[i] by {
            assert(s[p1 + 1 - from + i] == cs[p1 + 1 + i]);
        }
    }
    assert(cs[p2] == s[p2 - from]);
    assert(cs.subrange(p2 + 1, p3) =~= t2) by {
        assert forall|i: int| 0 <= i < t2.len() implies cs.subrange(p2 + 1, p3)[i] == t2[i] by {
            assert(s[p2 + 1 - from + i] == cs[p2 + 1 + i]);
        }
    }
    assert(cs[p3] == s[p3 - from]);
    assert(cs.subrange(p3 + 1, to) =~= t3) by {
        assert forall|i: int| 0 <= i < t3.len() implies cs.subrange(p3 + 1, to)[i] == t3[i] by {
            assert(s[p3 + 1 - from + i] == cs[p3 + 1 + i]);
        }
    }
}

/// Parses `cs[from..to]` as a dotted quad.
#[verifier::rlimit(100)]
#[verifier::spinoff_prover]
fn parse_ipv4(cs: &Vec<char>, from: usize, to: usize) -> (r: Option<[u8; 4]>)
    requires
        from <= to <= cs@.len(),
    ensures
        r matches Some(a) ==> cs@.subrange(from as int, to as int) == v4_text(a@),
        forall|o: Seq<u8>|
            o.len() == 4 && #[trigger] v4_text(o) == cs@.subrange(from as int, to as int) ==> (r matches Some(
                a,
            ) && a@ == o),
{
    let ghost s = cs@.subrange(from as int, to as int);
    let first = read_octet(cs, from, to);
    let (a0, p1) = match first {
        Some(x) => x,
        None => {
            proof {
                assert forall|o: Seq<u8>| o.len() == 4 && #[trigger] v4_text(o) == s implies false by {
                    lemma_v4_layout(cs@, from as int, to as int, o);
                    let l0 = decimal_text(o[0] as nat).len() as int;
                    assert(cs@.subrange(from as int, from + l0) == decimal_text(o[0] as nat));
                }
            }
            return None;
        },
    };
    if p1 >= to || cs[p1] != '.' {
        proof {
            assert forall|o: Seq<u8>| o.len() == 4 && #[trigger] v4_text(o) == s implies false by {
                lemma_v4_layout(cs@, from as int, to as int, o);
                let l0 = decimal_text(o[0] as nat).len() as int;
                assert(cs@.subrange(from as int, from + l0) == decimal_text(o[0] as nat));
            }
        }
        return None;
    }
    let second = read_octet(cs, p1 + 1, to);
    let (a1, p2) = match second {
        Some(x) => x,
        None => {
            proof {
                assert forall|o: Seq<u8>| o.len() == 4 && #[trigger] v4_text(o) == s implies false by {
                    lemma_v4_layout(cs@, from as int, to as int, o);
                    let l0 = decimal_text(o[0] as nat).len() as int;
                    let l1 = decimal_text(o[1] as nat).len() as int;
                    assert(cs@.subrange(from as int, from + l0) == decimal_text(o[0] as nat));
                    assert(cs@.subrange(p1 + 1, p1 + 1 + l1) == decimal_text(o[1] as nat));
                }
            }
            return None;
        },
    };
    if p2 >= to || cs[p2] != '.' {
        proof {
            assert forall|o: Seq<u8>| o.len() == 4 && #[trigger] v4_text(o) == s implies false by {
                lemma_v4_layout(cs@, from as int, to as int, o);
                let l0 = decimal_text(o[0] as nat).len() as int;
                let l1 = decimal_text(o[1] as nat).len() as int;
                assert(cs@.subrange(from as int, from + l0) == decimal_text(o[0] as nat));
                assert(cs@.subrange(p1 + 1, p1 + 1 + l1) == decimal_text(o[1] as nat));
            }
        }
        return None;
    }
    let third = read_octet(cs, p2 + 1, to);
    let (a2, p3) = match third {
        Some(x) => x,
        None => {
            proof {
                assert forall|o: Seq<u8>| o.len() == 4 && #[trigger] v4_text(o) == s implies false by {
                    lemma_v4_layout(cs@, from as int, to as int, o);
                    let l0 = decimal_text(o[0] as nat).len() as int;
                    let l1 = decimal_text(o[1] as nat).len() as int;
                    let l2 = decimal_text(o[2] as nat).len() as int;
                    assert(cs@.subrange(from as int, from + l0) == decimal_text(o[0] as nat));
                    assert(cs@.subrange(p1 + 1, p1 + 1 + l1) == decimal_text(o[1] as nat));
                    assert(cs@.subrange(p2 + 1, p2 + 1 + l2) == decimal_text(o[2] as nat));
                }
            }
            return None;
        },
    };
    if p3 >= to || cs[p3] != '.' {
        proof {
            assert forall|o: Seq<u8>| o.len() == 4 && #[trigger] v4_text(o) == s implies false by {
                lemma_v4_layout(cs@, from as int, to as int, o);
                let l0 = decimal_text(o[0] as nat).len() as int;
                let l1 = decimal_text(o[1] as nat).len() as int;
                let l2 = decimal_text(o[2] as nat).len() as int;
                assert(cs@.subrange(from as int, from + l0) == decimal_text(o[0] as nat));
                assert(cs@.subrange(p1 + 1, p1 + 1 + l1) == decimal_text(o[1] as nat));
                assert(cs@.subrange(p2 + 1, p2 + 1 + l2) == decimal_text(o[2] as nat));
            }
        }
        return None;
    }
    let fourth = read_octet(cs, p3 + 1, to);
    let (a3, p4) = match fourth {
        Some(x) => x,
        None => {
            proof {
                assert forall|o: Seq<u8>| o.len() == 4 && #[trigger] v4_text(o) == s implies false by {
                    lemma_v4_layout(cs@, from as int, to as int, o);
                    let l0 = decimal_text(o[0] as nat).len() as int;
                    let l1 = decimal_text(o[1] as nat).len() as int;
                    let l2 = decimal_text(o[2] as nat).len() as int;
                    assert(cs@.subrange(from as int, from + l0) == decimal_text(o[0] as nat));
                    assert(cs@.subrange(p1 + 1, p1 + 1 + l1) == decimal_text(o[1] as nat));
                    assert(cs@.subrange(p2 + 1, p2 + 1 + l2) == decimal_text(o[2] as nat));
                    assert(cs@.subrange(p3 + 1, to as int) == decimal_text(o[3] as nat));
                }
            }
            return None;
        },
    };
    if p4 != to {
        proof {
            assert forall|o: Seq<u8>| o.len() == 4 && #[trigger] v4_text(o) == s implies false by {
                lemma_v4_layout(cs@, from as int, to as int, o);
                let l0 = decimal_text(o[0] as nat).len() as int;
                let l1 = decimal_text(o[1] as nat).len() as int;
                let l2 = decimal_text(o[2] as nat).len() as int;
                assert(cs@.subrange(from as int, from + l0) == decimal_text(o[0] as nat));
                assert(cs@.subrange(p1 + 1, p1 + 1 + l1) == decimal_text(o[1] as nat));
                assert(cs@.subrange(p2 + 1, p2 + 1 + l2) == decimal_text(o[2] as nat));
                assert(cs@.subrange(p3 + 1, to as int) == decimal_text(o[3] as nat));
            }
        }
        return None;
    }
    let a = [a0, a1, a2, a3];
    proof {
        assert(a@ =~= seq![a0, a1, a2, a3]);
        assert(s =~= v4_text(a@)) by {
            assert(s =~= cs@.subrange(from as int, p1 as int) + seq!['.'] + cs@.subrange(
                p1 + 1,
                p2 as int,
            ) + seq!['.'] + cs@.subrange(p2 + 1, p3 as int) + seq!['.'] + cs@.subrange(
                p3 + 1,
                to as int,
            ));
        }
        assert forall|o: Seq<u8>| o.len() == 4 && #[trigger] v4_text(o) == s implies a@ == o by {
            lemma_v4_layout(cs@, from as int, to as int, o);
            let l0 = decimal_text(o[0] as nat).len() as int;
            let l1 = decimal_text(o[1] as nat).len() as int;
            let l2 = decimal_text(o[2] as nat).len() as int;
            assert(cs@.subrange(from as int, from + l0) == decimal_text(o[0] as nat));
            assert(cs@.subrange(p1 + 1, p1 + 1 + l1) == decimal_text(o[1] as nat));
            assert(cs@.subrange(p2 + 1, p2 + 1 + l2) == decimal_text(o[2] as nat));
            assert(cs@.subrange(p3 + 1, to as int) == decimal_text(o[3] as nat));
            assert(a@ =~= o);
        }
    }
    Some(a)
}

/// A prefix of a numeral is worth no more than the numeral.
proof fn lemma_prefix_value(s: Seq<char>, k: int)
    requires
        all_digits(s),
        0 <= k <= s.len(),
    ensures
        decimal_value(s.subrange(0, k)) <= decimal_value(s),
    decreases s.len(),
{
    if k < s.len() {
        let p = s.drop_last();
        assert(all_digits(p)) by {
            assert forall|i: int| 0 <= i < p.len() implies is_digit(#[trigger] p[i]) by {
                assert(p[i] == s[i]);
            }
        }
        lemma_prefix_value(p, k);
        assert(p.subrange(0, k) =~= s.subrange(0, k));
    } else {
        assert(s.subrange(0, k) =~= s);
    }
}

/// Parses `cs[from..to]` as a port: decimal digits, leading zeros allowed.
fn parse_port(cs: &Vec<char>, from: usize, to: usize) -> (r: Option<u16>)
    requires
        from <= to <= cs@.len(),
    ensures
        r matches Some(p) ==> port_text(cs@.subrange(from as int, to as int), p),
        forall|p: u16| #[trigger] port_text(cs@.subrange(from as int, to as int), p) ==> r == Some(p),
{
    let ghost s = cs@.subrange(from as int, to as int);
    if from == to {
        return None;
    }
    let mut value: u64 = 0;
    let mut i: usize = from;
    while i < to
        invariant
            from <= i <= to <= cs@.len(),
            s == cs@.subrange(from as int, to as int),
            all_digits(cs@.subrange(from as int, i as int)),
            value == decimal_value(cs@.subrange(from as int, i as int)),
            value <= 65535,
        decreases to - i,
    {
        let c = cs[i];
        if c < '0' || c > '9' {
            proof {
                assert(s[i - from] == c);
            }
            return None;
        }
        let ghost run = cs@.subrange(from as int, i as int);
        let d = (c as u32 - '0' as u32) as u64;
        value = value * 10 + d;
        i += 1;
        proof {
            let run2 = cs@.subrange(from as int, i as int);
            assert(run2.drop_last() =~= run);
            assert(run2.last() == c);
            assert(all_digits(run2)) by {
                assert forall|j: int| 0 <= j < run2.len() implies is_digit(#[trigger] run2[j]) by {
                    if j < run.len() {
                        assert(run2[j] == run[j]);
                    }
                }
            }
        }
        if value > 65535 {
            proof {
                assert forall|p: u16| #[trigger] port_text(s, p) implies false by {
                    lemma_prefix_value(s, i - from);
                    assert(s.subrange(0, i - from) =~= cs@.subrange(from as int, i as int));
                }
            }
            return None;
        }
    }
    proof {
        assert(cs@.subrange(from as int, i as int) =~= s);
    }
    Some(value as u16)
}

/// `c` is a hexadecimal digit.
pub open spec fn is_hex(c: char) -> bool {
    ('0' <= c <= '9') || ('a' <= c <= 'f') || ('A' <= c <= 'F')
}

/// The value of the hexadecimal digit `c`.
pub open spec fn hex_digit_value(c: char) -> nat {
    if '0' <= c <= '9' {
        (c as nat - '0' as nat) as nat
    } else if 'a' <= c <= 'f' {
        (c as nat - 'a' as nat + 10) as nat
    } else {
        (c as nat - 'A' as nat + 10) as nat
    }
}

/// The value of a string of hexadecimal digits.
pub open spec fn hex_value(s: Seq<char>) -> nat
    decreases s.len(),
{
    if s.len() == 0 {
        0
    } else {
        hex_value(s.drop_last()) * 16 + hex_digit_value(s.last())
    }
}

/// `t` is one group of an IPv6 address, of one to four hex digits, with value `v`.
pub open spec fn hex_group(t: Seq<char>, v: u16) -> bool {
    &&& 1 <= t.len() <= 4
    &&& forall|i: int| 0 <= i < t.len() ==> is_hex(#[trigger] t[i])
    &&& hex_value(t) == v as nat
}

/// `s` is the groups `gs` (at least one) separated by single colons.
pub open spec fn groups_text(s: Seq<char>, gs: Seq<u16>) -> bool
    decreases gs.len(),
{
    if gs.len() == 0 {
        false
    } else if gs.len() == 1 {
        hex_group(s, gs[0])
    } else {
        exists|k: int|
            0 <= k < s.len() && #[trigger] s[k] == ':' && groups_text(s.subrange(0, k), gs.drop_last())
                && hex_group(s.subrange(k + 1, s.len() as int), gs.last())
    }
}

/// `s` is the groups `gs` separated by colons, or empty with no groups.
pub open spec fn groups_or_empty(s: Seq<char>, gs: Seq<u16>) -> bool {
    (s.len() == 0 && gs.len() == 0) || groups_text(s, gs)
}

/// The two 16-bit groups that the dotted quad `o` stands for at the end of
/// an IPv6 address.
pub open spec fn v4_groups(o: Seq<u8>) -> Seq<u16> {
    seq![(o[0] as int * 256 + o[1] as int) as u16, (o[2] as int * 256 + o[3] as int) as u16]
}

/// `s` is the groups `g` separated by single colons, where the last two
/// groups may instead be written as a dotted quad.
pub open spec fn groups_tail_text(s: Seq<char>, g: Seq<u16>) -> bool {
    groups_text(s, g) || (g.len() >= 2 && exists|o: Seq<u8>|
        o.len() == 4 && g.subrange(g.len() - 2, g.len() as int) == v4_groups(o) && ((g.len() == 2
            && s == #[trigger] v4_text(o)) || exists|k: int|
            0 <= k < s.len() && s[k] == ':' && groups_text(s.subrange(0, k), g.subrange(0, g.len() - 2))
                && s.subrange(k + 1, s.len() as int) == #[trigger] v4_text(o)))
}

/// `s` is groups with an optional dotted tail, or empty with no groups.
pub open spec fn groups_tail_or_empty(s: Seq<char>, g: Seq<u16>) -> bool {
    (s.len() == 0 && g.len() == 0) || groups_tail_text(s, g)
}

/// `s` is an IPv6 address `a` in colon-hex notation: eight groups, or fewer
/// groups with one `::` standing for the zero groups left out; the last two
/// groups may be written as a dotted quad.
pub open spec fn v6_text(s: Seq<char>, a: Seq<u16>) -> bool {
    &&& a.len() == 8
    &&& groups_tail_text(s, a) || exists|i: int, h: Seq<u16>, t: Seq<u16>|
        0 <= i && i + 2 <= s.len() && s[i] == ':' && s[i + 1] == ':' && #[trigger] groups_or_empty(
            s.subrange(0, i),
            h,
        ) && #[trigger] groups_tail_or_empty(s.subrange(i + 2, s.len() as int), t) && h.len() + t.len()
            <= 7 && a == h + Seq::new((8 - h.len() - t.len()) as nat, |j: int| 0u16) + t
}

fn is_hex_char(c: char) -> (r: bool)
    ensures
        r == is_hex(c),
{
    ('0' <= c && c <= '9') || ('a' <= c && c <= 'f') || ('A' <= c && c <= 'F')
}

fn hex_char_value(c: char) -> (r: u64)
    requires
        is_hex(c),
    ensures
        r == hex_digit_value(c),
        r < 16,
{
    if '0' <= c && c <= '9' {
        (c as u32 - '0' as u32) as u64
    } else if 'a' <= c && c <= 'f' {
        (c as u32 - 'a' as u32 + 10) as u64
    } else {
        (c as u32 - 'A' as u32 + 10) as u64
    }
}

proof fn lemma_hex_value_bound(s: Seq<char>)
    requires
        forall|i: int| 0 <= i < s.len() ==> is_hex(#[trigger] s[i]),
    ensures
        s.len() <= 4 ==> hex_value(s) < 65536,
        s.len() <= 3 ==> hex_value(s) < 4096,
        s.len() <= 2 ==> hex_value(s) < 256,
        s.len() <= 1 ==> hex_value(s) < 16,
    decreases s.len(),
{
    if s.len() > 0 {
        let p = s.drop_last();
        assert forall|i: int| 0 <= i < p.len() implies is_hex(#[trigger] p[i]) by {
            assert(p[i] == s[i]);
        }
        lemma_hex_value_bound(p);
        assert(is_hex(s[s.len() - 1]));
    }
}

/// Reads one group of one to four hex digits at `pos`; the group must end at
/// `end` or at a character that is not a hex digit.
fn read_hex_group(cs: &Vec<char>, pos: usize, end: usize) -> (r: Option<(u16, usize)>)
    requires
        pos <= end <= cs@.len(),
    ensures
        r matches Some((v, q)) ==> pos < q <= end && hex_group(
            cs@.subrange(pos as int, q as int),
            v,
        ) && (q == end || !is_hex(cs@[q as int])),
        forall|v: u16, q: int|
            #![trigger hex_group(cs@.subrange(pos as int, q), v)]
            pos < q <= end && hex_group(cs@.subrange(pos as int, q), v) && (q == end || !is_hex(cs@[q]))
                ==> r == Some((v, q as usize)),
{
    let mut q: usize = pos;
    let mut value: u64 = 0;
    while q < end && is_hex_char(cs[q]) && q - pos < 4
        invariant
            pos <= q <= end <= cs@.len(),
            q - pos <= 4,
            forall|i: int| 0 <= i < q - pos ==> is_hex(#[trigger] cs@.subrange(pos as int, q as int)[i]),
            value == hex_value(cs@.subrange(pos as int, q as int)),
            value < 65536,
        decreases end - q,
    {
        let ghost run = cs@.subrange(pos as int, q as int);
        let d = hex_char_value(cs[q]);
        value = value * 16 + d;
        q += 1;
        proof {
            let run2 = cs@.subrange(pos as int, q as int);
            assert(run2.drop_last() =~= run);
            assert(run2.last() == cs@[q - 1]);
            assert forall|i: int| 0 <= i < q - pos implies is_hex(#[trigger] run2[i]) by {
                if i < run.len() {
                    assert(run2[i] == run[i]);
                }
            }
            lemma_hex_value_bound(run2);
        }
    }
    proof {
        assert forall|v: u16, q2: int|
            pos < q2 <= end && hex_group(cs@.subrange(pos as int, q2), v) && (q2 == end || !is_hex(cs@[q2]))
                implies q2 == q by {
            let t = cs@.subrange(pos as int, q2);
            if q < q2 {
                assert(t[q - pos] == cs@[q as int]);
                assert(is_hex(t[q - pos]));
                assert(q - pos < 4);
            }
            if q2 < q {
                assert(cs@.subrange(pos as int, q as int)[q2 - pos] == cs@[q2]);
            }
        }
    }
    if q == pos || (q < end && is_hex_char(cs[q])) {
        return None;
    }
    Some((value as u16, q))
}

proof fn lemma_groups_push(s: Seq<char>, gs: Seq<u16>, k: int)
    requires
        gs.len() >= 2,
        0 <= k < s.len(),
        s[k] == ':',
        groups_text(s.subrange(0, k), gs.drop_last()),
        hex_group(s.subrange(k + 1, s.len() as int), gs.last()),
    ensures
        groups_text(s, gs),
{
}

/// A group holds no colon.
proof fn lemma_hex_group_no_colon(t: Seq<char>, v: u16, j: int)
    requires
        hex_group(t, v),
        0 <= j < t.len(),
    ensures
        t[j] != ':',
{
    assert(is_hex(t[j]));
}

/// Groups text splits at its first colon into the first group and the text
/// of the other groups.
proof fn lemma_groups_split_first(s: Seq<char>, gs: Seq<u16>) -> (c: int)
    requires
        groups_text(s, gs),
        gs.len() >= 2,
    ensures
        first_index_of(s, ':', c),
        hex_group(s.subrange(0, c), gs[0]),
        groups_text(s.subrange(c + 1, s.len() as int), gs.drop_first()),
    decreases gs.len(),
{
    let k = choose|k: int|
        0 <= k < s.len() && #[trigger] s[k] == ':' && groups_text(s.subrange(0, k), gs.drop_last())
            && hex_group(s.subrange(k + 1, s.len() as int), gs.last());
    let left = s.subrange(0, k);
    let right = s.subrange(k + 1, s.len() as int);
    if gs.len() == 2 {
        assert(gs.drop_last() =~= seq![gs[0]]);
        assert(hex_group(left, gs[0]));
        assert forall|j: int| 0 <= j < k implies s[j] != ':' by {
            assert(left[j] == s[j]);
            lemma_hex_group_no_colon(left, gs[0], j);
        }
        assert(gs.drop_first() =~= seq![gs.last()]);
        assert(groups_text(right, gs.drop_first()));
        k
    } else {
        let c = lemma_groups_split_first(left, gs.drop_last());
        assert forall|j: int| 0 <= j < c implies s[j] != ':' by {
            assert(left[j] == s[j]);
        }
        assert(left[c] == s[c]);
        assert(s.subrange(0, c) =~= left.subrange(0, c));
        let rest = s.subrange(c + 1, s.len() as int);
        let mid = left.subrange(c + 1, left.len() as int);
        let g2 = gs.drop_first();
        assert(g2.drop_last() =~= gs.drop_last().drop_first());
        assert(g2.last() == gs.last());
        let k2 = k - c - 1;
        assert(rest[k2] == ':');
        assert(rest.subrange(0, k2) =~= mid);
        assert(rest.subrange(k2 + 1, rest.len() as int) =~= right);
        assert(0 <= k2 < rest.len() && rest[k2] == ':' && groups_text(rest.subrange(0, k2), g2.drop_last())
            && hex_group(rest.subrange(k2 + 1, rest.len() as int), g2.last()));
        assert(groups_text(rest, g2));
        c
    }
}

/// Parses `cs[from..to]` as colon-separated groups; an empty range has none.
/// The groups left to read from `pos` on, when the text is the groups `g`
/// and `m` of them have been read.
spec fn groups_ahead(cs: Seq<char>, pos: int, to: int, g: Seq<u16>, m: int) -> bool {
    &&& m < g.len()
    &&& groups_text(cs.subrange(pos, to), g.subrange(m, g.len() as int))
}

#[verifier::rlimit(100)]
#[verifier::spinoff_prover]
fn parse_groups(cs: &Vec<char>, from: usize, to: usize) -> (r: Option<Vec<u16>>)
    requires
        from <= to <= cs@.len(),
    ensures
        r matches Some(gs) ==> gs@.len() <= 8 && groups_or_empty(
            cs@.subrange(from as int, to as int),
            gs@,
        ),
        forall|g: Seq<u16>|
            g.len() <= 8 && #[trigger] groups_or_empty(cs@.subrange(from as int, to as int), g) ==> (r matches Some(
                gs,
            ) && gs@ == g),
{
    let ghost sub = cs@.subrange(from as int, to as int);
    let mut gs: Vec<u16> = Vec::new();
    if from == to {
        proof {
            assert forall|g: Seq<u16>|
                g.len() <= 8 && #[trigger] groups_or_empty(sub, g) implies g =~= gs@ by {
                if groups_text(sub, g) {
                    if g.len() == 1 {
                        assert(hex_group(sub, g[0]));
                    } else if g.len() >= 2 {
                        let k = choose|k: int|
                            0 <= k < sub.len() && #[trigger] sub[k] == ':' && groups_text(sub.subrange(0, k), g.drop_last())
                                && hex_group(sub.subrange(k + 1, sub.len() as int), g.last());
                    }
                }
            }
        }
        return Some(gs);
    }
    let mut pos: usize = from;
    proof {
        assert forall|g: Seq<u16>|
            g.len() <= 8 && #[trigger] groups_or_empty(sub, g) implies gs@ == g.subrange(0, 0)
                && groups_ahead(cs@, pos as int, to as int, g, 0) by {
            assert(g.subrange(0, g.len() as int) =~= g);
            assert(g.subrange(0, 0) =~= gs@);
            if g.len() == 0 {
                assert(sub.len() > 0);
            }
        }
    }
    loop
        invariant
            from <= pos < to <= cs@.len(),
            sub == cs@.subrange(from as int, to as int),
            gs@.len() < 8,
            gs@.len() == 0 ==> pos == from,
            gs@.len() > 0 ==> from < pos && cs@[pos - 1] == ':' && groups_text(
                cs@.subrange(from as int, pos - 1),
                gs@,
            ),
            forall|g: Seq<u16>|
                g.len() <= 8 && #[trigger] groups_or_empty(sub, g) ==> gs@ == g.subrange(0, gs@.len() as int)
                    && groups_ahead(cs@, pos as int, to as int, g, gs@.len() as int),
        decreases to - pos,
    {
        let ghost m = gs@.len() as int;
        let ghost rest = cs@.subrange(pos as int, to as int);
        let got = read_hex_group(cs, pos, to);
        proof {
            assert forall|g: Seq<u16>|
                g.len() <= 8 && #[trigger] groups_or_empty(sub, g) implies {
                    let h = g.subrange(m, g.len() as int);
                    if h.len() >= 2 {
                        exists|c: int|
                            first_index_of(rest, ':', c) && hex_group(rest.subrange(0, c), h[0])
                                && groups_text(rest.subrange(c + 1, rest.len() as int), h.drop_first())
                                && got == Some((h[0], (pos + c) as usize))
                    } else {
                        h.len() == 1 && got == Some((h[0], to))
                    }
                } by {
                let h = g.subrange(m, g.len() as int);
                assert(groups_ahead(cs@, pos as int, to as int, g, m));
                if h.len() >= 2 {
                    let c = lemma_groups_split_first(rest, h);
                    assert(cs@.subrange(pos as int, pos + c) =~= rest.subrange(0, c));
                    assert(cs@[pos + c] == rest[c]);
                    assert(hex_group(cs@.subrange(pos as int, pos + c), h[0]));
                } else {
                    assert(h.len() == 1);
                    assert(hex_group(rest, h[0]));
                    assert(cs@.subrange(pos as int, to as int) == rest);
                }
            }
        }
        let (v, q) = match got {
            Some(x) => x,
            None => {
                proof {
                    assert forall|g: Seq<u16>|
                        g.len() <= 8 && #[trigger] groups_or_empty(sub, g) implies false by {
                        let h = g.subrange(m, g.len() as int);
                        if h.len() >= 2 {
                            let c = choose|c: int|
                                first_index_of(rest, ':', c) && hex_group(rest.subrange(0, c), h[0])
                                    && groups_text(rest.subrange(c + 1, rest.len() as int), h.drop_first())
                                    && got == Some((h[0], (pos + c) as usize));
                        }
                    }
                }
                return None;
            },
        };
        let ghost before = gs@;
        gs.push(v);
        proof {
            let sub2 = cs@.subrange(from as int, q as int);
            if before.len() == 0 {
                assert(gs@ =~= seq![v]);
                assert(sub2 =~= cs@.subrange(pos as int, q as int));
            } else {
                let k = pos - 1 - from;
                assert(gs@.drop_last() =~= before);
                assert(sub2.subrange(0, k) =~= cs@.subrange(from as int, pos - 1));
                assert(sub2.subrange(k + 1, sub2.len() as int) =~= cs@.subrange(pos as int, q as int));
                assert(sub2[k] == ':');
                assert(gs@.last() == v);
                lemma_groups_push(sub2, gs@, k);
            }
        }
        if q == to {
            proof {
                assert forall|g: Seq<u16>|
                    g.len() <= 8 && #[trigger] groups_or_empty(sub, g) implies gs@ == g by {
                    let h = g.subrange(m, g.len() as int);
                    if h.len() >= 2 {
                        let c = choose|c: int|
                            first_index_of(rest, ':', c) && hex_group(rest.subrange(0, c), h[0])
                                && groups_text(rest.subrange(c + 1, rest.len() as int), h.drop_first())
                                && got == Some((h[0], (pos + c) as usize));
                        assert(false);
                    }
                    assert(g.len() == m + 1);
                    assert(gs@ =~= g.subrange(0, m).push(h[0]));
                    assert(g =~= g.subrange(0, m).push(g[m]));
                }
            }
            return Some(gs);
        }
        proof {
            assert forall|g: Seq<u16>|
                g.len() <= 8 && #[trigger] groups_or_empty(sub, g) implies cs@[q as int] == ':' && gs@.len() < 8
                    && q + 1 < to && gs@ == g.subrange(0, gs@.len() as int) && groups_ahead(
                    cs@,
                    q + 1,
                    to as int,
                    g,
                    gs@.len() as int,
                ) by {
                let h = g.subrange(m, g.len() as int);
                if h.len() < 2 {
                    assert(got == Some((h[0], to)));
                }
                let c = choose|c: int|
                    first_index_of(rest, ':', c) && hex_group(rest.subrange(0, c), h[0])
                        && groups_text(rest.subrange(c + 1, rest.len() as int), h.drop_first())
                        && got == Some((h[0], (pos + c) as usize));
                assert(q == pos + c);
                assert(rest[c] == cs@[q as int]);
                assert(gs@ =~= g.subrange(0, m + 1));
                assert(h.drop_first() =~= g.subrange(m + 1, g.len() as int));
                assert(rest.subrange(c + 1, rest.len() as int) =~= cs@.subrange(q + 1, to as int));
                let t = rest.subrange(c + 1, rest.len() as int);
                if t.len() == 0 {
                    if h.drop_first().len() == 1 {
                        assert(hex_group(t, h.drop_first()[0]));
                    } else {
                        let k = choose|k: int|
                            0 <= k < t.len() && #[trigger] t[k] == ':' && groups_text(t.subrange(0, k), h.drop_first().drop_last())
                                && hex_group(t.subrange(k + 1, t.len() as int), h.drop_first().last());
                    }
                }
            }
        }
        if cs[q] != ':' || gs.len() >= 8 || q + 1 >= to {
            proof {
                assert forall|g: Seq<u16>|
                    g.len() <= 8 && #[trigger] groups_or_empty(sub, g) implies false by {
                }
            }
            return None;
        }
        pos = q + 1;
    }
}

/// The position of the last `c` in `cs[from..to]`.
fn last_char_in(cs: &Vec<char>, from: usize, to: usize, c: char) -> (r: Option<usize>)
    requires
        from <= to <= cs@.len(),
    ensures
        r matches Some(k) ==> from <= k < to && cs@[k as int] == c && forall|j: int| k < j < to ==> cs@[j] != c,
        r is None ==> forall|j: int| from <= j < to ==> cs@[j] != c,
{
    let mut i: usize = to;
    while i > from
        invariant
            from <= i <= to <= cs@.len(),
            forall|j: int| i <= j < to ==> cs@[j] != c,
        decreases i,
    {
        if cs[i - 1] == c {
            return Some(i - 1);
        }
        i -= 1;
    }
    None
}

/// Whether `cs[from..to]` holds a `c`.
fn has_char_in(cs: &Vec<char>, from: usize, to: usize, c: char) -> (r: bool)
    requires
        from <= to <= cs@.len(),
    ensures
        r == exists|j: int| from <= j < to && cs@[j] == c,
{
    let mut i: usize = from;
    while i < to
        invariant
            from <= i <= to <= cs@.len(),
            forall|j: int| from <= j < i ==> cs@[j] != c,
        decreases to - i,
    {
        if cs[i] == c {
            return true;
        }
        i += 1;
    }
    false
}

fn v4_groups_exec(o: &[u8; 4]) -> (r: (u16, u16))
    ensures
        seq![r.0, r.1] == v4_groups(o@),
{
    let a = (o[0] as u16) * 256 + (o[1] as u16);
    let b = (o[2] as u16) * 256 + (o[3] as u16);
    proof {
        assert(seq![a, b] =~= v4_groups(o@));
    }
    (a, b)
}

/// The shape of text with a dotted tail: where its last colon and dot lie.
proof fn lemma_tail_shape(s: Seq<char>, g: Seq<u16>)
    requires
        groups_tail_text(s, g),
        !groups_text(s, g),
    ensures
        g.len() >= 2,
        exists|o: Seq<u8>|
            o.len() == 4 && g.subrange(g.len() - 2, g.len() as int) == v4_groups(o) && ((g.len() == 2
                && s == #[trigger] v4_text(o) && lacks(s, ':')) || exists|k: int|
                0 < k < s.len() && s[k] == ':' && groups_text(s.subrange(0, k), g.subrange(0, g.len() - 2))
                    && s.subrange(k + 1, s.len() as int) == #[trigger] v4_text(o) && lacks(
                    s.subrange(k + 1, s.len() as int),
                    ':',
                )),
{
    let o = choose|o: Seq<u8>|
        o.len() == 4 && g.subrange(g.len() - 2, g.len() as int) == v4_groups(o) && ((g.len() == 2
            && s == #[trigger] v4_text(o)) || exists|k: int|
            0 <= k < s.len() && s[k] == ':' && groups_text(s.subrange(0, k), g.subrange(0, g.len() - 2))
                && s.subrange(k + 1, s.len() as int) == #[trigger] v4_text(o));
    lemma_v4_text_lacks_colon(o);
    if !(g.len() == 2 && s == v4_text(o)) {
        let k = choose|k: int|
            0 <= k < s.len() && s[k] == ':' && groups_text(s.subrange(0, k), g.subrange(0, g.len() - 2))
                && s.subrange(k + 1, s.len() as int) == #[trigger] v4_text(o);
        lemma_groups_shape(s.subrange(0, k), g.subrange(0, g.len() - 2));
        assert(0 < k);
    }
}

/// Parses `cs[from..to]` as colon-separated groups whose last two may be
/// written as a dotted quad; an empty range has none.
#[verifier::rlimit(100)]
#[verifier::spinoff_prover]
fn parse_groups_tail(cs: &Vec<char>, from: usize, to: usize) -> (r: Option<Vec<u16>>)
    requires
        from <= to <= cs@.len(),
    ensures
        r matches Some(gs) ==> groups_tail_or_empty(cs@.subrange(from as int, to as int), gs@)
            && gs@.len() <= 10,
        forall|g: Seq<u16>|
            g.len() <= 8 && #[trigger] groups_tail_or_empty(cs@.subrange(from as int, to as int), g)
                ==> (r matches Some(gs) && gs@ == g),
{
    let ghost sub = cs@.subrange(from as int, to as int);
    let lc = last_char_in(cs, from, to, ':');
    let seg: usize = match lc {
        Some(k) => k + 1,
        None => from,
    };
    proof {
        // The forms with a dotted tail put the last colon just before the quad.
        assert forall|g: Seq<u16>| groups_tail_text(sub, g) && !groups_text(sub, g) implies {
            &&& exists|o: Seq<u8>|
                o.len() == 4 && g.subrange(g.len() - 2, g.len() as int) == v4_groups(o)
                    && cs@.subrange(seg as int, to as int) == #[trigger] v4_text(o) && (match lc {
                    None => g.len() == 2,
                    Some(k) => k > from && groups_text(
                        cs@.subrange(from as int, k as int),
                        g.subrange(0, g.len() - 2),
                    ),
                })
        } by {
            lemma_tail_shape(sub, g);
            let o = choose|o: Seq<u8>|
                o.len() == 4 && g.subrange(g.len() - 2, g.len() as int) == v4_groups(o) && ((g.len() == 2
                    && sub == #[trigger] v4_text(o) && lacks(sub, ':')) || exists|k: int|
                    0 < k < sub.len() && sub[k] == ':' && groups_text(sub.subrange(0, k), g.subrange(0, g.len() - 2))
                        && sub.subrange(k + 1, sub.len() as int) == #[trigger] v4_text(o) && lacks(
                        sub.subrange(k + 1, sub.len() as int),
                        ':',
                    ));
            if g.len() == 2 && sub == v4_text(o) && lacks(sub, ':') {
                match lc {
                    Some(k) => {
                        assert(sub[k - from] == cs@[k as int]);
                    },
                    None => {},
                }
                assert(cs@.subrange(seg as int, to as int) =~= sub);
            } else {
                let k2 = choose|k2: int|
                    0 < k2 < sub.len() && sub[k2] == ':' && groups_text(sub.subrange(0, k2), g.subrange(0, g.len() - 2))
                        && sub.subrange(k2 + 1, sub.len() as int) == #[trigger] v4_text(o) && lacks(
                        sub.subrange(k2 + 1, sub.len() as int),
                        ':',
                    );
                let t = sub.subrange(k2 + 1, sub.len() as int);
                match lc {
                    Some(k) => {
                        if k > from + k2 {
                            assert(t[k - from - k2 - 1] == cs@[k as int]);
                        }
                        if k < from + k2 {
                            assert(cs@[from + k2] == sub[k2]);
                        }
                        assert(k == from + k2);
                        assert(cs@.subrange(seg as int, to as int) =~= t);
                        assert(cs@.subrange(from as int, k as int) =~= sub.subrange(0, k2));
                    },
                    None => {
                        assert(cs@[from + k2] == sub[k2]);
                    },
                }
            }
        }
        // Groups alone hold no dot.
        assert forall|g: Seq<u16>| #[trigger] groups_text(sub, g) implies forall|j: int|
            seg <= j < to ==> cs@[j] != '.' by {
            lemma_groups_chars(sub, g);
            assert forall|j: int| seg <= j < to implies cs@[j] != '.' by {
                assert(sub[j - from] == cs@[j]);
                assert(is_hex(sub[j - from]) || sub[j - from] == ':');
            }
        }
    }
    if !has_char_in(cs, seg, to, '.') {
        proof {
            assert forall|g: Seq<u16>| groups_tail_text(sub, g) && !groups_text(sub, g) implies false by {
                let o = choose|o: Seq<u8>|
                    o.len() == 4 && g.subrange(g.len() - 2, g.len() as int) == v4_groups(o)
                        && cs@.subrange(seg as int, to as int) == #[trigger] v4_text(o) && (match lc {
                        None => g.len() == 2,
                        Some(k) => k > from && groups_text(
                            cs@.subrange(from as int, k as int),
                            g.subrange(0, g.len() - 2),
                        ),
                    });
                lemma_v4_text_has_dot(o);
                let l = decimal_text(o[0] as nat).len() as int;
                assert(cs@[seg + l] == v4_text(o)[l]);
            }
        }
        let r = parse_groups(cs, from, to);
        proof {
            assert forall|g: Seq<u16>| g.len() <= 8 && #[trigger] groups_tail_or_empty(sub, g) implies (r matches Some(
                gs,
            ) && gs@ == g) by {
                if groups_tail_text(sub, g) && !groups_text(sub, g) {
                    assert(false);
                }
                assert(groups_or_empty(sub, g));
            }
        }
        return r;
    }
    proof {
        assert forall|g: Seq<u16>| #[trigger] groups_tail_or_empty(sub, g) implies !groups_text(sub, g)
            && groups_tail_text(sub, g) by {
            if sub.len() == 0 {
                let j = choose|j: int| seg <= j < to && cs@[j] == '.';
                assert(false);
            }
        }
    }
    let quad = match parse_ipv4(cs, seg, to) {
        Some(q) => q,
        None => {
            return None;
        },
    };
    let (w0, w1) = v4_groups_exec(&quad);
    match lc {
        None => {
            let mut gs: Vec<u16> = Vec::new();
            gs.push(w0);
            gs.push(w1);
            proof {
                assert(gs@ =~= seq![w0, w1]);
                assert(sub =~= cs@.subrange(seg as int, to as int));
                assert(gs@.subrange(0, 2) =~= v4_groups(quad@));
                assert(groups_tail_text(sub, gs@));
                assert forall|g: Seq<u16>| g.len() <= 8 && #[trigger] groups_tail_or_empty(sub, g) implies gs@
                    == g by {
                    let o = choose|o: Seq<u8>|
                        o.len() == 4 && g.subrange(g.len() - 2, g.len() as int) == v4_groups(o)
                            && cs@.subrange(seg as int, to as int) == #[trigger] v4_text(o) && g.len() == 2;
                    assert(quad@ == o);
                    assert(g =~= g.subrange(0, 2));
                }
            }
            Some(gs)
        },
        Some(k) => {
            if k == from {
                return None;
            }
            let mut gs = match parse_groups(cs, from, k) {
                Some(p) => p,
                None => {
                    proof {
                        assert forall|g: Seq<u16>| g.len() <= 8 && #[trigger] groups_tail_or_empty(sub, g) implies false by {
                            let o = choose|o: Seq<u8>|
                                o.len() == 4 && g.subrange(g.len() - 2, g.len() as int) == v4_groups(o)
                                    && cs@.subrange(seg as int, to as int) == #[trigger] v4_text(o) && k > from
                                    && groups_text(cs@.subrange(from as int, k as int), g.subrange(0, g.len() - 2));
                            assert(groups_or_empty(cs@.subrange(from as int, k as int), g.subrange(0, g.len() - 2)));
                        }
                    }
                    return None;
                },
            };
            let ghost pre = gs@;
            gs.push(w0);
            gs.push(w1);
            proof {
                let pk = cs@.subrange(from as int, k as int);
                assert(pk.len() > 0);
                assert(groups_text(pk, pre));
                assert(gs@.subrange(0, gs@.len() - 2) =~= pre);
                assert(gs@.subrange(gs@.len() - 2, gs@.len() as int) =~= v4_groups(quad@));
                let k2 = k - from;
                assert(sub.subrange(0, k2) =~= pk);
                assert(sub.subrange(k2 + 1, sub.len() as int) =~= cs@.subrange(seg as int, to as int));
                assert(sub[k2] == ':');
                assert(groups_tail_text(sub, gs@));
                assert forall|g: Seq<u16>| g.len() <= 8 && #[trigger] groups_tail_or_empty(sub, g) implies gs@
                    == g by {
                    let o = choose|o: Seq<u8>|
                        o.len() == 4 && g.subrange(g.len() - 2, g.len() as int) == v4_groups(o)
                            && cs@.subrange(seg as int, to as int) == #[trigger] v4_text(o) && k > from
                            && groups_text(cs@.subrange(from as int, k as int), g.subrange(0, g.len() - 2));
                    assert(groups_or_empty(pk, g.subrange(0, g.len() - 2)));
                    assert(quad@ == o);
                    assert(g =~= g.subrange(0, g.len() - 2) + g.subrange(g.len() - 2, g.len() as int));
                    assert(gs@ =~= pre + v4_groups(quad@));
                }
            }
            Some(gs)
        },
    }
}

/// Two colons stand at `j` in `s`.
spec fn double_colon_at(s: Seq<char>, j: int) -> bool {
    0 <= j && j + 1 < s.len() && s[j] == ':' && s[j + 1] == ':'
}

/// Groups text starts and ends with a hex digit and holds no two colons in a row.
proof fn lemma_groups_shape(s: Seq<char>, g: Seq<u16>)
    requires
        groups_text(s, g),
    ensures
        s.len() >= 1,
        is_hex(s[0]),
        is_hex(s[s.len() - 1]),
        forall|j: int| !#[trigger] double_colon_at(s, j),
    decreases g.len(),
{
    if g.len() == 1 {
        assert(hex_group(s, g[0]));
        assert forall|j: int| !#[trigger] double_colon_at(s, j) by {
            if double_colon_at(s, j) {
                assert(is_hex(s[j]));
            }
        }
    } else {
        let k = choose|k: int|
            0 <= k < s.len() && #[trigger] s[k] == ':' && groups_text(s.subrange(0, k), g.drop_last())
                && hex_group(s.subrange(k + 1, s.len() as int), g.last());
        let left = s.subrange(0, k);
        let right = s.subrange(k + 1, s.len() as int);
        lemma_groups_shape(left, g.drop_last());
        assert(s[0] == left[0]);
        assert(s[s.len() - 1] == right[right.len() - 1]);
        assert(is_hex(right[right.len() - 1]));
        assert forall|j: int| !#[trigger] double_colon_at(s, j) by {
            if double_colon_at(s, j) {
                if j + 1 < k {
                    assert(left[j] == s[j] && left[j + 1] == s[j + 1]);
                    assert(double_colon_at(left, j));
                } else if j + 1 == k {
                    assert(left[j] == s[j]);
                } else if j == k {
                    assert(right[0] == s[j + 1]);
                    assert(is_hex(right[0]));
                } else {
                    assert(right[j - k - 1] == s[j]);
                    assert(is_hex(right[j - k - 1]));
                }
            }
        }
    }
}

/// In compressed colon-hex text, the first two colons in a row are those
/// that stand for the zero groups.
proof fn lemma_gap_is_first(s: Seq<char>, i: int, h: Seq<u16>)
    requires
        0 <= i && i + 2 <= s.len(),
        s[i] == ':' && s[i + 1] == ':',
        groups_or_empty(s.subrange(0, i), h),
    ensures
        forall|j: int| 0 <= j < i ==> !#[trigger] double_colon_at(s, j),
{
    let left = s.subrange(0, i);
    if groups_text(left, h) {
        lemma_groups_shape(left, h);
        assert forall|j: int| 0 <= j < i implies !#[trigger] double_colon_at(s, j) by {
            if double_colon_at(s, j) {
                if j + 1 < i {
                    assert(left[j] == s[j] && left[j + 1] == s[j + 1]);
                    assert(double_colon_at(left, j));
                } else {
                    assert(left[left.len() - 1] == s[j]);
                }
            }
        }
    }
}

/// Parses `cs[from..to]` as an IPv6 address in colon-hex notation.
#[verifier::rlimit(100)]
#[verifier::spinoff_prover]
fn parse_ipv6(cs: &Vec<char>, from: usize, to: usize) -> (r: Option<[u16; 8]>)
    requires
        from <= to <= cs@.len(),
    ensures
        r matches Some(a) ==> v6_text(cs@.subrange(from as int, to as int), a@),
        forall|a: Seq<u16>| #[trigger] v6_text(cs@.subrange(from as int, to as int), a) ==> (r matches Some(
            x,
        ) && x@ == a),
{
    let ghost s = cs@.subrange(from as int, to as int);
    let mut i: usize = from;
    let mut gap: Option<usize> = None;
    while i < to && i + 1 < to
        invariant
            from <= i <= to <= cs@.len(),
            gap matches Some(k) ==> from <= k && k + 2 <= to && cs@[k as int] == ':' && cs@[k + 1]
                == ':',
            gap is None ==> forall|j: int| from <= j < i && j + 1 < to ==> !#[trigger] double_colon_at(cs@, j),
            gap matches Some(k) ==> forall|j: int| from <= j < k ==> !#[trigger] double_colon_at(cs@, j),
        decreases to - i,
    {
        if gap.is_none() && cs[i] == ':' && cs[i + 1] == ':' {
            gap = Some(i);
        }
        i += 1;
    }
    proof {
        assert forall|j: int| #[trigger] double_colon_at(s, j) implies double_colon_at(cs@, from + j) && from + j + 1 < to by {
            assert(s[j] == cs@[from + j] && s[j + 1] == cs@[from + j + 1]);
        }
    }
    let mut all: Vec<u16> = Vec::new();
    match gap {
        None => {
            proof {
                assert forall|a: Seq<u16>| #[trigger] v6_text(s, a) implies groups_tail_text(s, a) by {
                    if !groups_tail_text(s, a) {
                        let (ii, h, t) = choose|ii: int, h: Seq<u16>, t: Seq<u16>|
                            0 <= ii && ii + 2 <= s.len() && s[ii] == ':' && s[ii + 1] == ':' && #[trigger] groups_or_empty(
                                s.subrange(0, ii),
                                h,
                            ) && #[trigger] groups_tail_or_empty(s.subrange(ii + 2, s.len() as int), t) && h.len() + t.len()
                                <= 7 && a == h + Seq::new((8 - h.len() - t.len()) as nat, |j: int| 0u16) + t;
                        assert(double_colon_at(s, ii));
                        assert(double_colon_at(cs@, from + ii));
                    }
                }
            }
            let gs = match parse_groups_tail(cs, from, to) {
                Some(gs) => gs,
                None => {
                    proof {
                        assert forall|a: Seq<u16>| #[trigger] v6_text(s, a) implies false by {
                            assert(groups_tail_or_empty(s, a));
                        }
                    }
                    return None;
                },
            };
            if gs.len() != 8 {
                proof {
                    assert forall|a: Seq<u16>| #[trigger] v6_text(s, a) implies false by {
                        assert(groups_tail_or_empty(s, a));
                    }
                }
                return None;
            }
            all = gs;
            proof {
                assert(groups_tail_text(s, all@));
                assert forall|a: Seq<u16>| #[trigger] v6_text(s, a) implies all@ == a by {
                    assert(groups_tail_or_empty(s, a));
                }
            }
        },
        Some(k) => {
            let ghost ii = k - from;
            proof {
                assert(s[ii] == ':' && s[ii + 1] == ':');
                assert(s.subrange(0, ii) =~= cs@.subrange(from as int, k as int));
                assert(s.subrange(ii + 2, s.len() as int) =~= cs@.subrange(k + 2, to as int));
                assert forall|a: Seq<u16>| #[trigger] v6_text(s, a) implies exists|h: Seq<u16>, t: Seq<u16>|
                    #[trigger] groups_or_empty(s.subrange(0, ii), h) && #[trigger] groups_tail_or_empty(
                        s.subrange(ii + 2, s.len() as int),
                        t,
                    ) && h.len() + t.len() <= 7 && a == h + Seq::new((8 - h.len() - t.len()) as nat, |j: int| 0u16)
                        + t by {
                    if groups_tail_text(s, a) {
                        lemma_tail_no_double(s, a);
                        assert(double_colon_at(s, ii));
                    }
                    let (i2, h, t) = choose|i2: int, h: Seq<u16>, t: Seq<u16>|
                        0 <= i2 && i2 + 2 <= s.len() && s[i2] == ':' && s[i2 + 1] == ':' && #[trigger] groups_or_empty(
                            s.subrange(0, i2),
                            h,
                        ) && #[trigger] groups_tail_or_empty(s.subrange(i2 + 2, s.len() as int), t) && h.len() + t.len()
                            <= 7 && a == h + Seq::new((8 - h.len() - t.len()) as nat, |j: int| 0u16) + t;
                    lemma_gap_is_first(s, i2, h);
                    if ii < i2 {
                        assert(double_colon_at(s, ii));
                    }
                    if i2 < ii {
                        assert(double_colon_at(s, i2));
                        assert(double_colon_at(cs@, from + i2));
                    }
                    assert(i2 == ii);
                }
            }
            let h = match parse_groups(cs, from, k) {
                Some(h) => h,
                None => {
                    proof {
                        assert forall|a: Seq<u16>| #[trigger] v6_text(s, a) implies false by {
                            let (hh, tt) = choose|hh: Seq<u16>, tt: Seq<u16>|
                                #[trigger] groups_or_empty(s.subrange(0, ii), hh) && #[trigger] groups_tail_or_empty(
                                    s.subrange(ii + 2, s.len() as int),
                                    tt,
                                ) && hh.len() + tt.len() <= 7 && a == hh + Seq::new((8 - hh.len() - tt.len()) as nat, |j: int| 0u16)
                                    + tt;
                            assert(groups_or_empty(cs@.subrange(from as int, k as int), hh));
                        }
                    }
                    return None;
                },
            };
            let t = match parse_groups_tail(cs, k + 2, to) {
                Some(t) => t,
                None => {
                    proof {
                        assert forall|a: Seq<u16>| #[trigger] v6_text(s, a) implies false by {
                            let (hh, tt) = choose|hh: Seq<u16>, tt: Seq<u16>|
                                #[trigger] groups_or_empty(s.subrange(0, ii), hh) && #[trigger] groups_tail_or_empty(
                                    s.subrange(ii + 2, s.len() as int),
                                    tt,
                                ) && hh.len() + tt.len() <= 7 && a == hh + Seq::new((8 - hh.len() - tt.len()) as nat, |j: int| 0u16)
                                    + tt;
                            assert(groups_tail_or_empty(cs@.subrange(k + 2, to as int), tt));
                        }
                    }
                    return None;
                },
            };
            proof {
                assert forall|a: Seq<u16>| #[trigger] v6_text(s, a) implies a == h@ + Seq::new(
                    (8 - h@.len() - t@.len()) as nat,
                    |j: int| 0u16,
                ) + t@ && h@.len() + t@.len() <= 7 by {
                    let (hh, tt) = choose|hh: Seq<u16>, tt: Seq<u16>|
                        #[trigger] groups_or_empty(s.subrange(0, ii), hh) && #[trigger] groups_tail_or_empty(
                            s.subrange(ii + 2, s.len() as int),
                            tt,
                        ) && hh.len() + tt.len() <= 7 && a == hh + Seq::new((8 - hh.len() - tt.len()) as nat, |j: int| 0u16)
                            + tt;
                    assert(groups_or_empty(cs@.subrange(from as int, k as int), hh));
                    assert(groups_tail_or_empty(cs@.subrange(k + 2, to as int), tt));
                }
            }
            if h.len() + t.len() > 7 {
                return None;
            }
            let zeros = 8 - h.len() - t.len();
            let mut j: usize = 0;
            while j < h.len()
                invariant
                    0 <= j <= h@.len(),
                    all@ == h@.subrange(0, j as int),
                decreases h@.len() - j,
            {
                all.push(h[j]);
                j += 1;
                proof {
                    assert(all@ =~= h@.subrange(0, j as int));
                }
            }
            let mut z: usize = 0;
            while z < zeros
                invariant
                    0 <= z <= zeros,
                    all@ == h@ + Seq::new(z as nat, |m: int| 0u16),
                decreases zeros - z,
            {
                all.push(0);
                z += 1;
                proof {
                    assert(all@ =~= h@ + Seq::new(z as nat, |m: int| 0u16));
                }
            }
            let mut j: usize = 0;
            while j < t.len()
                invariant
                    0 <= j <= t@.len(),
                    all@ == h@ + Seq::new(zeros as nat, |m: int| 0u16) + t@.subrange(0, j as int),
                decreases t@.len() - j,
            {
                all.push(t[j]);
                j += 1;
                proof {
                    assert(all@ =~= h@ + Seq::new(zeros as nat, |m: int| 0u16) + t@.subrange(
                        0,
                        j as int,
                    ));
                }
            }
            proof {
                assert(h@.subrange(0, h@.len() as int) =~= h@);
                assert(t@.subrange(0, t@.len() as int) =~= t@);
                assert(groups_or_empty(s.subrange(0, ii), h@));
                assert(groups_tail_or_empty(s.subrange(ii + 2, s.len() as int), t@));
                assert(v6_text(s, all@));
            }
        },
    }
    let a = [all[0], all[1], all[2], all[3], all[4], all[5], all[6], all[7]];
    proof {
        assert(a@ =~= all@);
    }
    Some(a)
}

/// `k` is the position of the first `c` in `s`.
pub open spec fn first_index_of(s: Seq<char>, c: char, k: int) -> bool {
    &&& 0 <= k < s.len()
    &&& s[k] == c
    &&& forall|j: int| 0 <= j < k ==> s[j] != c
}

/// `s` holds no `c`.
pub open spec fn lacks(s: Seq<char>, c: char) -> bool {
    forall|j: int| 0 <= j < s.len() ==> s[j] != c
}

/// The position of the first `c` in `cs[from..]`.
fn find_char(cs: &Vec<char>, from: usize, c: char) -> (r: Option<usize>)
    requires
        from <= cs@.len(),
    ensures
        r matches Some(k) ==> from <= k < cs@.len() && cs@[k as int] == c && forall|j: int|
            from <= j < k ==> cs@[j] != c,
        r is None ==> forall|j: int| from <= j < cs@.len() ==> cs@[j] != c,
{
    let mut i: usize = from;
    while i < cs.len()
        invariant
            from <= i <= cs@.len(),
            forall|j: int| from <= j < i ==> cs@[j] != c,
        decreases cs@.len() - i,
    {
        if cs[i] == c {
            return Some(i);
        }
        i += 1;
    }
    None
}

/// An IP address literal, optionally with a port, in the forms that
/// `get_ip_with_port` takes: a dotted quad or colon-hex address (the port is
/// then the default one), `quad:port`, or `[colon-hex]:port`.
pub open spec fn ip_literal_text(s: Seq<char>, sa: SocketAddress) -> bool {
    socket_literal_text(s, sa) || (bare_ip_text(s, sa.ip) && sa.port == DEFAULT_PORT)
}

/// `s` is an IP address without a port: a dotted quad or colon-hex.
pub open spec fn bare_ip_text(s: Seq<char>, ip: IpAddress) -> bool {
    match ip {
        IpAddress::V4(a) => s == v4_text(a@),
        IpAddress::V6(a) => v6_text(s, a@),
    }
}

/// `s` is an IP address with a port: `quad:port` or `[colon-hex]:port`.
pub open spec fn socket_literal_text(s: Seq<char>, sa: SocketAddress) -> bool {
    match sa.ip {
        IpAddress::V4(a) => exists|t: Seq<char>|
            s == v4_text(a@) + seq![':'] + t && #[trigger] port_text(t, sa.port),
        IpAddress::V6(a) => v6_socket_text(s, a@, sa.port),
    }
}

/// `s` is `[colon-hex]:port` for the IPv6 address `a` and the port `p`.
pub open spec fn v6_socket_text(s: Seq<char>, a: Seq<u16>, p: u16) -> bool {
    exists|i: int|
        2 <= i + 2 <= s.len() && s[0] == '[' && s[i] == ']' && s[i + 1] == ':' && #[trigger] v6_text(
            s.subrange(1, i),
            a,
        ) && port_text(s.subrange(i + 2, s.len() as int), p)
}

proof fn lemma_v6_socket_text(s: Seq<char>, a: Seq<u16>, p: u16, i: int)
    requires
        2 <= i + 2 <= s.len(),
        s[0] == '[',
        s[i] == ']',
        s[i + 1] == ':',
        v6_text(s.subrange(1, i), a),
        port_text(s.subrange(i + 2, s.len() as int), p),
    ensures
        v6_socket_text(s, a, p),
{
}

/// `sa` is the IPv4 address `o` with port `p`.
pub open spec fn is_v4_socket(sa: SocketAddress, o: Seq<u8>, p: u16) -> bool {
    sa.ip matches IpAddress::V4(a) && a@ == o && sa.port == p
}

proof fn lemma_v4_text_lacks_colon(o: Seq<u8>)
    requires
        o.len() == 4,
    ensures
        lacks(v4_text(o), ':'),
        forall|j: int| 0 <= j < v4_text(o).len() ==> is_digit(#[trigger] v4_text(o)[j]) || v4_text(o)[j] == '.',
{
    lemma_decimal_text(o[0] as nat);
    lemma_decimal_text(o[1] as nat);
    lemma_decimal_text(o[2] as nat);
    lemma_decimal_text(o[3] as nat);
    let s = v4_text(o);
    assert forall|j: int| 0 <= j < s.len() implies is_digit(s[j]) || s[j] == '.' by {
        let t0 = decimal_text(o[0] as nat);
        let t1 = decimal_text(o[1] as nat);
        let t2 = decimal_text(o[2] as nat);
        let t3 = decimal_text(o[3] as nat);
        let l0 = t0.len() as int;
        let l1 = t1.len() as int;
        let l2 = t2.len() as int;
        if j < l0 {
            assert(s[j] == t0[j]);
            assert(is_digit(t0[j]));
        } else if j == l0 {
        } else if j < l0 + 1 + l1 {
            assert(s[j] == t1[j - l0 - 1]);
            assert(is_digit(t1[j - l0 - 1]));
        } else if j == l0 + 1 + l1 {
        } else if j < l0 + l1 + l2 + 2 {
            assert(s[j] == t2[j - l0 - l1 - 2]);
            assert(is_digit(t2[j - l0 - l1 - 2]));
        } else if j == l0 + l1 + l2 + 2 {
        } else {
            assert(s[j] == t3[j - l0 - l1 - l2 - 3]);
            assert(is_digit(t3[j - l0 - l1 - l2 - 3]));
        }
    }
}

proof fn lemma_v4_socket_shape(s: Seq<char>, o: Seq<u8>, t: Seq<char>)
    requires
        o.len() == 4,
        s == v4_text(o) + seq![':'] + t,
    ensures
        is_digit(s[0]),
        !lacks(s, ':'),
{
    lemma_decimal_text(o[0] as nat);
    assert(s[0] == decimal_text(o[0] as nat)[0]);
    assert(s[v4_text(o).len() as int] == ':');
}

/// Where a federation peer is reached: a literal socket address, or a host
/// name and what follows it (a colon and a port, or nothing).
#[derive(Clone, Debug, PartialEq)]
pub enum FedDest {
    Literal(SocketAddress),
    Named(String, String),
}

/// `sa` is the IPv6 address `a` with port `p`.
pub open spec fn is_v6_socket(sa: SocketAddress, a: Seq<u16>, p: u16) -> bool {
    sa.ip matches IpAddress::V6(x) && x@ == a && sa.port == p
}

/// Groups text holds hex digits and colons only.
proof fn lemma_groups_chars(s: Seq<char>, g: Seq<u16>)
    requires
        groups_text(s, g),
    ensures
        forall|j: int| 0 <= j < s.len() ==> is_hex(#[trigger] s[j]) || s[j] == ':',
    decreases g.len(),
{
    if g.len() == 1 {
        assert(hex_group(s, g[0]));
    } else {
        let k = choose|k: int|
            0 <= k < s.len() && #[trigger] s[k] == ':' && groups_text(s.subrange(0, k), g.drop_last())
                && hex_group(s.subrange(k + 1, s.len() as int), g.last());
        let left = s.subrange(0, k);
        let right = s.subrange(k + 1, s.len() as int);
        lemma_groups_chars(left, g.drop_last());
        assert forall|j: int| 0 <= j < s.len() implies is_hex(#[trigger] s[j]) || s[j] == ':' by {
            if j < k {
                assert(left[j] == s[j]);
            } else if j > k {
                assert(right[j - k - 1] == s[j]);
                assert(is_hex(right[j - k - 1]));
            }
        }
    }
}

/// Colon-hex text is not empty and holds no brackets.
proof fn lemma_v6_chars(s: Seq<char>, a: Seq<u16>)
    requires
        v6_text(s, a),
    ensures
        s.len() >= 1,
        forall|j: int| 0 <= j < s.len() ==> (#[trigger] s[j]) != '[' && s[j] != ']',
{
    lemma_v6_text_has_colon(s, a);
    assert forall|j: int| 0 <= j < s.len() implies (#[trigger] s[j]) != '[' && s[j] != ']' by {
        lemma_v6_char_kinds(s, a, j);
    }
}

/// Each character of colon-hex text is a hex digit, a colon, or a dot that
/// follows some colon.
proof fn lemma_v6_char_kinds(s: Seq<char>, a: Seq<u16>, j: int)
    requires
        v6_text(s, a),
        0 <= j < s.len(),
    ensures
        is_hex(s[j]) || s[j] == ':' || (s[j] == '.' && exists|c: int| 0 <= c < j && s[c] == ':'),
{
    if groups_tail_text(s, a) {
        lemma_tail_char_kinds(s, a, j);
    } else {
        let (i, h, t) = choose|i: int, h: Seq<u16>, t: Seq<u16>|
            0 <= i && i + 2 <= s.len() && s[i] == ':' && s[i + 1] == ':' && #[trigger] groups_or_empty(
                s.subrange(0, i),
                h,
            ) && #[trigger] groups_tail_or_empty(s.subrange(i + 2, s.len() as int), t) && h.len() + t.len()
                <= 7 && a == h + Seq::new((8 - h.len() - t.len()) as nat, |j: int| 0u16) + t;
        let left = s.subrange(0, i);
        let right = s.subrange(i + 2, s.len() as int);
        if j < i {
            lemma_groups_chars(left, h);
            assert(left[j] == s[j]);
        } else if j >= i + 2 {
            lemma_tail_char_kinds(right, t, j - i - 2);
            assert(right[j - i - 2] == s[j]);
            if s[j] == '.' {
                assert(s[i] == ':');
            }
        }
    }
}

/// Each character of groups text with an optional dotted tail is a hex
/// digit, a colon, or a dot that follows some colon unless the text is a
/// bare quad.
proof fn lemma_tail_char_kinds(s: Seq<char>, g: Seq<u16>, j: int)
    requires
        groups_tail_text(s, g),
        0 <= j < s.len(),
    ensures
        is_hex(s[j]) || s[j] == ':' || (s[j] == '.' && (g.len() == 2 || exists|c: int|
            0 <= c < j && s[c] == ':')),
{
    if groups_text(s, g) {
        lemma_groups_chars(s, g);
    } else {
        lemma_tail_shape(s, g);
        let o = choose|o: Seq<u8>|
            o.len() == 4 && g.subrange(g.len() - 2, g.len() as int) == v4_groups(o) && ((g.len() == 2
                && s == #[trigger] v4_text(o) && lacks(s, ':')) || exists|k: int|
                0 < k < s.len() && s[k] == ':' && groups_text(s.subrange(0, k), g.subrange(0, g.len() - 2))
                    && s.subrange(k + 1, s.len() as int) == #[trigger] v4_text(o) && lacks(
                    s.subrange(k + 1, s.len() as int),
                    ':',
                ));
        lemma_v4_text_lacks_colon(o);
        if g.len() == 2 && s == v4_text(o) && lacks(s, ':') {
            assert(is_digit(s[j]) || s[j] == '.');
        } else {
            let k = choose|k: int|
                0 < k < s.len() && s[k] == ':' && groups_text(s.subrange(0, k), g.subrange(0, g.len() - 2))
                    && s.subrange(k + 1, s.len() as int) == #[trigger] v4_text(o) && lacks(
                    s.subrange(k + 1, s.len() as int),
                    ':',
                );
            if j < k {
                lemma_groups_chars(s.subrange(0, k), g.subrange(0, g.len() - 2));
                assert(s.subrange(0, k)[j] == s[j]);
            } else if j > k {
                assert(v4_text(o)[j - k - 1] == s[j]);
                assert(is_digit(s[j]) || s[j] == '.');
            }
        }
    }
}

/// Groups text with an optional dotted tail holds no two colons in a row.
proof fn lemma_tail_no_double(s: Seq<char>, g: Seq<u16>)
    requires
        groups_tail_text(s, g),
    ensures
        forall|j: int| !#[trigger] double_colon_at(s, j),
{
    if groups_text(s, g) {
        lemma_groups_shape(s, g);
    } else {
        lemma_tail_shape(s, g);
        let o = choose|o: Seq<u8>|
            o.len() == 4 && g.subrange(g.len() - 2, g.len() as int) == v4_groups(o) && ((g.len() == 2
                && s == #[trigger] v4_text(o) && lacks(s, ':')) || exists|k: int|
                0 < k < s.len() && s[k] == ':' && groups_text(s.subrange(0, k), g.subrange(0, g.len() - 2))
                    && s.subrange(k + 1, s.len() as int) == #[trigger] v4_text(o) && lacks(
                    s.subrange(k + 1, s.len() as int),
                    ':',
                ));
        if !(g.len() == 2 && s == v4_text(o) && lacks(s, ':')) {
            let k = choose|k: int|
                0 < k < s.len() && s[k] == ':' && groups_text(s.subrange(0, k), g.subrange(0, g.len() - 2))
                    && s.subrange(k + 1, s.len() as int) == #[trigger] v4_text(o) && lacks(
                    s.subrange(k + 1, s.len() as int),
                    ':',
                );
            let left = s.subrange(0, k);
            let right = s.subrange(k + 1, s.len() as int);
            lemma_groups_shape(left, g.subrange(0, g.len() - 2));
            assert forall|j: int| !#[trigger] double_colon_at(s, j) by {
                if double_colon_at(s, j) {
                    if j + 1 < k {
                        assert(left[j] == s[j] && left[j + 1] == s[j + 1]);
                        assert(double_colon_at(left, j));
                    } else if j + 1 == k {
                        assert(left[j] == s[j]);
                    } else {
                        assert(right[j - k] == s[j + 1]);
                    }
                }
            }
        }
    }
}

/// A dotted quad holds a dot.
proof fn lemma_v4_text_has_dot(o: Seq<u8>)
    requires
        o.len() == 4,
    ensures
        v4_text(o)[decimal_text(o[0] as nat).len() as int] == '.',
        decimal_text(o[0] as nat).len() < v4_text(o).len(),
{
    lemma_decimal_text(o[0] as nat);
}

/// Reads `destination_str` as an IP address literal, with a port or without
/// one (then with the default port); tells whether a port was given.
#[verifier::rlimit(50)]
fn read_ip_literal(destination_str: &str) -> (r: Option<(SocketAddress, bool)>)
    ensures
        r matches Some((sa, explicit)) ==> if explicit {
            socket_literal_text(destination_str@, sa)
        } else {
            bare_ip_text(destination_str@, sa.ip) && sa.port == DEFAULT_PORT
        },
        forall|o: Seq<u8>|
            o.len() == 4 && #[trigger] v4_text(o) == destination_str@ ==> (r matches Some(
                (sa, explicit),
            ) && !explicit && is_v4_socket(sa, o, DEFAULT_PORT)),
        forall|o: Seq<u8>, t: Seq<char>, p: u16|
            #![trigger v4_text(o), port_text(t, p)]
            o.len() == 4 && destination_str@ == v4_text(o) + seq![':'] + t && port_text(t, p) ==> (r matches Some((sa, explicit)) && explicit && is_v4_socket(sa, o, p)),
        forall|a: Seq<u16>|
            #[trigger] v6_text(destination_str@, a) ==> (r matches Some((sa, explicit)) && !explicit
                && is_v6_socket(sa, a, DEFAULT_PORT)),
        forall|a: Seq<u16>, p: u16|
            #[trigger] v6_socket_text(destination_str@, a, p) ==> (r matches Some((sa, explicit))
                && explicit && is_v6_socket(sa, a, p)),
{
    let cs = chars_of(destination_str);
    let n = cs.len();
    let ghost s = cs@;
    proof {
        assert(cs@.subrange(0, n as int) =~= s);
        assert forall|o: Seq<u8>| o.len() == 4 implies lacks(#[trigger] v4_text(o), ':') by {
            lemma_v4_text_lacks_colon(o);
        }
    }
    if n > 0 && cs[0] == '[' {
        proof {
            assert forall|o: Seq<u8>, t: Seq<char>, p2: u16|
                #![trigger v4_text(o), port_text(t, p2)]
                o.len() == 4 && s == v4_text(o) + seq![':'] + t && port_text(t, p2) implies false by {
                lemma_v4_socket_shape(s, o, t);
            }
            assert forall|o: Seq<u8>| o.len() == 4 implies #[trigger] v4_text(o)[0] != '[' by {
                lemma_decimal_text(o[0] as nat);
                assert(v4_text(o)[0] == decimal_text(o[0] as nat)[0]);
            }
            assert forall|a: Seq<u16>| #[trigger] v6_text(s, a) implies false by {
                lemma_v6_chars(s, a);
                assert(is_hex(s[0]) || s[0] == ':');
            }
        }
        let ghost wit = |a: Seq<u16>, p: u16, i: int|
            2 <= i + 2 <= s.len() && s[0] == '[' && s[i] == ']' && s[i + 1] == ':' && v6_text(
                s.subrange(1, i),
                a,
            ) && port_text(s.subrange(i + 2, s.len() as int), p);
        proof {
            assert forall|a: Seq<u16>, p: u16, i: int| #[trigger] wit(a, p, i) implies first_index_of(
                s.subrange(1, s.len() as int),
                ']',
                i - 1,
            ) by {
                let t = s.subrange(1, i);
                lemma_v6_chars(t, a);
                assert forall|j: int| 0 <= j < i - 1 implies s.subrange(1, s.len() as int)[j] != ']' by {
                    assert(t[j] == s[j + 1]);
                    assert(t[j] != ']');
                }
            }
        }
        let close = match find_char(&cs, 1, ']') {
            Some(k) => k,
            None => {
                proof {
                    assert forall|a: Seq<u16>, p: u16| #[trigger] v6_socket_text(s, a, p) implies false by {
                        let i = choose|i: int|
                            2 <= i + 2 <= s.len() && s[0] == '[' && s[i] == ']' && s[i + 1] == ':' && #[trigger] v6_text(
                                s.subrange(1, i),
                                a,
                            ) && port_text(s.subrange(i + 2, s.len() as int), p);
                        assert(wit(a, p, i));
                        if i == 0 {
                            assert(s[0] == '[');
                        }
                    }
                }
                return None;
            },
        };
        proof {
            assert forall|a: Seq<u16>, p: u16| #[trigger] v6_socket_text(s, a, p) implies {
                &&& close + 1 < n && cs@[close + 1] == ':'
                &&& v6_text(cs@.subrange(1, close as int), a)
                &&& port_text(cs@.subrange(close + 2, n as int), p)
            } by {
                let i = choose|i: int|
                    2 <= i + 2 <= s.len() && s[0] == '[' && s[i] == ']' && s[i + 1] == ':' && #[trigger] v6_text(
                        s.subrange(1, i),
                        a,
                    ) && port_text(s.subrange(i + 2, s.len() as int), p);
                assert(wit(a, p, i));
                if i == 0 {
                    assert(s[0] == '[');
                }
                let u = s.subrange(1, s.len() as int);
                assert(first_index_of(u, ']', i - 1));
                if close < i {
                    assert(u[close - 1] == s[close as int]);
                }
                if i < close {
                    assert(u[i - 1] == s[i]);
                }
                assert(close == i);
            }
        }
        if close + 1 >= n || cs[close + 1] != ':' {
            return None;
        }
        let ip = match parse_ipv6(&cs, 1, close) {
            Some(a) => a,
            None => {
                return None;
            },
        };
        let port = match parse_port(&cs, close + 2, n) {
            Some(p) => p,
            None => {
                return None;
            },
        };
        let sa = SocketAddress { ip: IpAddress::V6(ip), port };
        proof {
            assert(socket_literal_text(s, sa)) by {
                let i = close as int;
                assert(cs@.subrange(1, i) == s.subrange(1, i));
                assert(v6_text(s.subrange(1, i), ip@));
                assert(port_text(s.subrange(i + 2, s.len() as int), sa.port));
                assert(2 <= i + 2 <= s.len() && s[0] == '[' && s[i] == ']' && s[i + 1] == ':');
                lemma_v6_socket_text(s, ip@, sa.port, i);
            }
        }
        return Some((sa, true));
    }
    proof {
        assert forall|a: Seq<u16>, p: u16| #[trigger] v6_socket_text(s, a, p) implies false by {
            let i = choose|i: int|
                2 <= i + 2 <= s.len() && s[0] == '[' && s[i] == ']' && s[i + 1] == ':' && #[trigger] v6_text(
                    s.subrange(1, i),
                    a,
                ) && port_text(s.subrange(i + 2, s.len() as int), p);
        }
    }
    match find_char(&cs, 0, ':') {
        Some(k) => {
            let ghost pre = cs@.subrange(0, k as int);
            let ghost post = cs@.subrange(k + 1, n as int);
            proof {
                assert(s =~= pre + seq![':'] + post);
                assert forall|o: Seq<u8>, t: Seq<char>|
                    o.len() == 4 && s == #[trigger] (v4_text(o) + seq![':'] + t) implies pre == v4_text(o)
                    && post == t by {
                    lemma_v4_text_lacks_colon(o);
                    let l = v4_text(o).len() as int;
                    assert(s[l] == ':');
                    if k < l {
                        assert(s[k as int] == v4_text(o)[k as int]);
                    }
                    assert(pre =~= v4_text(o));
                    assert(post =~= t);
                }
            }
            let v4 = parse_ipv4(&cs, 0, k);
            let port = parse_port(&cs, k + 1, n);
            match (v4, port) {
                (Some(a), Some(p)) => {
                    let sa = SocketAddress { ip: IpAddress::V4(a), port: p };
                    proof {
                        assert forall|b: Seq<u16>| #[trigger] v6_text(s, b) implies false by {
                            lemma_v4_text_has_dot(a@);
                            let l = decimal_text(a@[0] as nat).len() as int;
                            assert(pre[l] == '.');
                            assert(s[l] == pre[l]);
                            lemma_v6_char_kinds(s, b, l);
                            if exists|c: int| 0 <= c < l && s[c] == ':' {
                                let c = choose|c: int| 0 <= c < l && s[c] == ':';
                                assert(cs@[c] != ':');
                            }
                        }
                        assert(s == v4_text(a@) + seq![':'] + post);
                        assert(port_text(post, sa.port));
                        assert(sa.ip == IpAddress::V4(a));
                        assert(socket_literal_text(s, sa));
                        assert forall|o: Seq<u8>, t: Seq<char>, p2: u16|
                            #![trigger v4_text(o), port_text(t, p2)]
                            o.len() == 4 && s == v4_text(o) + seq![':'] + t && port_text(t, p2) implies is_v4_socket(sa, o, p2) by {
                            assert(s == (v4_text(o) + seq![':'] + t));
                            assert(a@ == o);
                        }
                    }
                    Some((sa, true))
                },
                _ => {
                    proof {
                        assert forall|o: Seq<u8>, t: Seq<char>, p2: u16|
                            #![trigger v4_text(o), port_text(t, p2)]
                            o.len() == 4 && s == v4_text(o) + seq![':'] + t && port_text(t, p2) implies false by {
                            assert(s == (v4_text(o) + seq![':'] + t));
                        }
                    }
                    proof {
                        assert(cs@.subrange(0, n as int) =~= s);
                    }
                    match parse_ipv6(&cs, 0, n) {
                        Some(a) => {
                            let sa = SocketAddress { ip: IpAddress::V6(a), port: DEFAULT_PORT };
                            Some((sa, false))
                        },
                        None => None,
                    }
                },
            }
        },
        None => {
            proof {
                assert forall|o: Seq<u8>, t: Seq<char>, p2: u16|
                    #![trigger v4_text(o), port_text(t, p2)]
                    o.len() == 4 && s == v4_text(o) + seq![':'] + t && port_text(t, p2) implies false by {
                    lemma_v4_socket_shape(s, o, t);
                }
                assert forall|b: Seq<u16>| #[trigger] v6_text(s, b) implies false by {
                    lemma_v6_text_has_colon(s, b);
                }
            }
            match parse_ipv4(&cs, 0, n) {
                Some(a) => {
                    let sa = SocketAddress { ip: IpAddress::V4(a), port: DEFAULT_PORT };
                    Some((sa, false))
                },
                None => {
                    proof {
                        assert forall|o: Seq<u8>, t: Seq<char>, p2: u16|
                            #![trigger v4_text(o), port_text(t, p2)]
                            o.len() == 4 && s == v4_text(o) + seq![':'] + t && port_text(t, p2) implies false by {
                            let l = v4_text(o).len() as int;
                            assert(s[l] == ':');
                        }
                    }
                    None
                },
            }
        },
    }
}

/// Reads `destination_str` as an IP address literal, with a port or with the
/// default port; `None` when it is none.
pub fn get_ip_with_port(destination_str: &str) -> (r: Option<FedDest>)
    ensures
        r matches Some(d) ==> (d matches FedDest::Literal(sa) && ip_literal_text(destination_str@, sa)),
        forall|o: Seq<u8>|
            o.len() == 4 && #[trigger] v4_text(o) == destination_str@ ==> (r matches Some(
                FedDest::Literal(sa),
            ) && is_v4_socket(sa, o, DEFAULT_PORT)),
        forall|o: Seq<u8>, t: Seq<char>, p: u16|
            #![trigger v4_text(o), port_text(t, p)]
            o.len() == 4 && destination_str@ == v4_text(o) + seq![':'] + t && port_text(t, p) ==> (r matches Some(FedDest::Literal(sa)) && is_v4_socket(sa, o, p)),
        forall|a: Seq<u16>|
            #[trigger] v6_text(destination_str@, a) ==> (r matches Some(FedDest::Literal(sa))
                && is_v6_socket(sa, a, DEFAULT_PORT)),
        forall|a: Seq<u16>, p: u16|
            #[trigger] v6_socket_text(destination_str@, a, p) ==> (r matches Some(FedDest::Literal(sa))
                && is_v6_socket(sa, a, p)),
{
    match read_ip_literal(destination_str) {
        Some((sa, _)) => Some(FedDest::Literal(sa)),
        None => None,
    }
}

/// The groups `gs` in lower-case hex, separated by colons.
pub open spec fn hex_groups_text(gs: Seq<u16>) -> Seq<char>
    decreases gs.len(),
{
    if gs.len() <= 1 {
        if gs.len() == 1 {
            hex_text(gs[0] as nat)
        } else {
            Seq::empty()
        }
    } else {
        hex_groups_text(gs.drop_last()) + seq![':'] + hex_text(gs.last() as nat)
    }
}

/// The number of zero groups in a row from position `i` on.
pub open spec fn zero_run(a: Seq<u16>, i: int) -> nat
    decreases a.len() - i,
{
    if i < 0 || i >= a.len() || a[i] != 0 {
        0
    } else {
        1 + zero_run(a, i + 1)
    }
}

/// The longest run of zero groups from position `i` on, the leftmost of
/// equally long ones: its start and length (length 0 when there is none).
pub open spec fn longest_zero_run(a: Seq<u16>, i: int) -> (int, nat)
    decreases a.len() - i,
{
    if i < 0 || i >= a.len() {
        (a.len() as int, 0)
    } else {
        let rest = longest_zero_run(a, i + 1);
        if zero_run(a, i) > 0 && zero_run(a, i) >= rest.1 {
            (i, zero_run(a, i))
        } else {
            rest
        }
    }
}

/// The IPv4 address that an IPv4-mapped IPv6 address `::ffff:a.b.c.d` holds.
pub open spec fn mapped_v4(a: Seq<u16>) -> Seq<u8> {
    seq![(a[6] / 256) as u8, (a[6] % 256) as u8, (a[7] / 256) as u8, (a[7] % 256) as u8]
}

/// `a` is an IPv4-mapped IPv6 address.
pub open spec fn is_v4_mapped(a: Seq<u16>) -> bool {
    a[0] == 0 && a[1] == 0 && a[2] == 0 && a[3] == 0 && a[4] == 0 && a[5] == 0xffff
}

/// An IPv6 address as std writes it: an IPv4-mapped address as
/// `::ffff:a.b.c.d`; otherwise the groups in lower-case hex, with the
/// longest run of two or more zero groups (the leftmost of equal ones)
/// written as `::`.
pub open spec fn v6_display(a: Seq<u16>) -> Seq<char> {
    if is_v4_mapped(a) {
        "::ffff:"@ + v4_text(mapped_v4(a))
    } else {
        let (st, l) = longest_zero_run(a, 0);
        if l > 1 {
            hex_groups_text(a.subrange(0, st)) + "::"@ + hex_groups_text(a.subrange(st + l, 8))
        } else {
            hex_groups_text(a)
        }
    }
}

/// An IP address as text: a dotted quad, or IPv6 as std writes it.
pub open spec fn ip_text(ip: IpAddress) -> Seq<char> {
    match ip {
        IpAddress::V4(a) => v4_text(a@),
        IpAddress::V6(a) => v6_display(a@),
    }
}

fn zero_run_exec(a: &[u16; 8], i: usize) -> (r: usize)
    requires
        i <= 8,
    ensures
        r == zero_run(a@, i as int),
        r <= 8 - i,
    decreases 8 - i,
{
    if i >= 8 || a[i] != 0 {
        0
    } else {
        1 + zero_run_exec(a, i + 1)
    }
}

fn longest_zero_run_exec(a: &[u16; 8], i: usize) -> (r: (usize, usize))
    requires
        i <= 8,
    ensures
        (r.0 as int, r.1 as nat) == longest_zero_run(a@, i as int),
        r.0 + r.1 <= 8,
    decreases 8 - i,
{
    if i >= 8 {
        (8, 0)
    } else {
        let rest = longest_zero_run_exec(a, i + 1);
        let here = zero_run_exec(a, i);
        if here > 0 && here >= rest.1 {
            (i, here)
        } else {
            rest
        }
    }
}

/// Appends the groups `a[from..to]` in lower-case hex, separated by colons.
fn push_groups(s: &mut String, a: &[u16; 8], from: usize, to: usize)
    requires
        from <= to <= 8,
    ensures
        final(s)@ == old(s)@ + hex_groups_text(a@.subrange(from as int, to as int)),
{
    let mut i: usize = from;
    proof {
        assert(a@.subrange(from as int, from as int) =~= Seq::<u16>::empty());
        assert(old(s)@ + hex_groups_text(Seq::<u16>::empty()) =~= old(s)@);
    }
    while i < to
        invariant
            from <= i <= to <= 8,
            a@.len() == 8,
            s@ == old(s)@ + hex_groups_text(a@.subrange(from as int, i as int)),
        decreases to - i,
    {
        if i > from {
            push_char(s, ':');
        }
        push_str(s, u64_hex_text(a[i] as u64).as_str());
        proof {
            let g = a@.subrange(from as int, i + 1);
            assert(g.drop_last() =~= a@.subrange(from as int, i as int));
            if i == from {
                assert(s@ =~= old(s)@ + hex_groups_text(g));
            } else {
                assert(s@ =~= old(s)@ + hex_groups_text(g));
            }
        }
        i += 1;
    }
}

/// A socket address as text: `quad:port`, or `[groups]:port`.
pub open spec fn socket_text(sa: SocketAddress) -> Seq<char> {
    match sa.ip {
        IpAddress::V4(_) => ip_text(sa.ip) + seq![':'] + decimal_text(sa.port as nat),
        IpAddress::V6(_) => seq!['['] + ip_text(sa.ip) + seq![']', ':'] + decimal_text(
            sa.port as nat,
        ),
    }
}

/// A destination as text: the socket address, or the host name and its suffix.
pub open spec fn dest_text(d: FedDest) -> Seq<char> {
    match d {
        FedDest::Literal(sa) => socket_text(sa),
        FedDest::Named(host, port) => host@ + port@,
    }
}

/// `d` is the named destination `host` with suffix `port`.
pub open spec fn is_named(d: FedDest, host: Seq<char>, port: Seq<char>) -> bool {
    d matches FedDest::Named(h, p) && h@ == host && p@ == port
}

fn push_v4(s: &mut String, a: &[u8; 4])
    ensures
        final(s)@ == old(s)@ + v4_text(a@),
{
    push_str(s, u64_text(a[0] as u64).as_str());
    push_char(s, '.');
    push_str(s, u64_text(a[1] as u64).as_str());
    push_char(s, '.');
    push_str(s, u64_text(a[2] as u64).as_str());
    push_char(s, '.');
    push_str(s, u64_text(a[3] as u64).as_str());
    proof {
        assert(s@ =~= old(s)@ + v4_text(a@));
    }
}

fn push_ip(s: &mut String, ip: &IpAddress)
    ensures
        final(s)@ == old(s)@ + ip_text(*ip),
{
    match ip {
        IpAddress::V4(a) => push_v4(s, a),
        IpAddress::V6(a) => {
            if a[0] == 0 && a[1] == 0 && a[2] == 0 && a[3] == 0 && a[4] == 0 && a[5] == 0xffff {
                push_str(s, "::ffff:");
                let q: [u8; 4] = [(a[6] / 256) as u8, (a[6] % 256) as u8, (a[7] / 256) as u8, (a[7] % 256) as u8];
                let ghost mid = s@;
                push_v4(s, &q);
                proof {
                    reveal_strlit("::ffff:");
                    assert(q@ =~= mapped_v4(a@));
                    assert(s@ =~= old(s)@ + v6_display(a@));
                }
            } else {
                let (st, l) = longest_zero_run_exec(a, 0);
                if l > 1 {
                    push_groups(s, a, 0, st);
                    push_str(s, "::");
                    push_groups(s, a, st + l, 8);
                    proof {
                        reveal_strlit("::");
                        assert(s@ =~= old(s)@ + v6_display(a@));
                    }
                } else {
                    push_groups(s, a, 0, 8);
                    proof {
                        assert(a@.subrange(0, 8) =~= a@);
                        assert(s@ =~= old(s)@ + v6_display(a@));
                    }
                }
            }
        },
    }
}

fn push_socket(s: &mut String, sa: &SocketAddress)
    ensures
        final(s)@ == old(s)@ + socket_text(*sa),
{
    match sa.ip {
        IpAddress::V4(_) => {
            push_ip(s, &sa.ip);
            push_char(s, ':');
            push_str(s, u64_text(sa.port as u64).as_str());
            proof {
                assert(s@ =~= old(s)@ + socket_text(*sa));
            }
        },
        IpAddress::V6(_) => {
            push_char(s, '[');
            push_ip(s, &sa.ip);
            push_char(s, ']');
            push_char(s, ':');
            push_str(s, u64_text(sa.port as u64).as_str());
            proof {
                assert(s@ =~= old(s)@ + socket_text(*sa));
            }
        },
    }
}

impl FedDest {
    /// The destination as an `https://` base URL.
    pub fn into_https_string(self) -> (r: String)
        ensures
            r@ == "https://"@ + dest_text(self),
    {
        let mut r = String::new();
        push_str(&mut r, "https://");
        match &self {
            FedDest::Literal(addr) => push_socket(&mut r, addr),
            FedDest::Named(host, port) => {
                push_str(&mut r, host.as_str());
                push_str(&mut r, port.as_str());
            },
        }
        proof {
            assert(r@ =~= "https://"@ + dest_text(self));
        }
        r
    }

    /// The destination as `host[:port]` text.
    pub fn into_uri_string(self) -> (r: String)
        ensures
            r@ == dest_text(self),
    {
        let mut r = String::new();
        match &self {
            FedDest::Literal(addr) => push_socket(&mut r, addr),
            FedDest::Named(host, port) => {
                push_str(&mut r, host.as_str());
                push_str(&mut r, port.as_str());
            },
        }
        proof {
            assert(r@ =~= dest_text(self));
        }
        r
    }

    /// The host part of the destination: the IP address as text, or the name.
    pub fn hostname(&self) -> (r: String)
        ensures
            r@ == match self {
                FedDest::Literal(addr) => ip_text(addr.ip),
                FedDest::Named(host, _) => host@,
            },
    {
        let mut r = String::new();
        match self {
            FedDest::Literal(addr) => push_ip(&mut r, &addr.ip),
            FedDest::Named(host, _) => push_str(&mut r, host.as_str()),
        }
        proof {
            assert(r@ =~= match self {
                FedDest::Literal(addr) => ip_text(addr.ip),
                FedDest::Named(host, _) => host@,
            });
        }
        r
    }

    /// The port of the destination: that of the socket address, or the
    /// number after the first character of a name's suffix (an optional `+`,
    /// then decimal digits); `None` when that is no port.
    pub fn port(&self) -> (r: Option<u16>)
        ensures
            r == match *self {
                FedDest::Literal(addr) => Some(addr.port),
                FedDest::Named(_, p) => suffix_port(p@),
            },
    {
        match self {
            FedDest::Literal(addr) => {
                proof {
                    assert(*self == FedDest::Literal(*addr));
                }
                Some(addr.port)
            },
            FedDest::Named(_, port) => {
                let cs = chars_of(port.as_str());
                let n = cs.len();
                if n == 0 {
                    return None;
                }
                let start: usize = if n >= 2 && cs[1] == '+' {
                    2
                } else {
                    1
                };
                let r = parse_port(&cs, start, n);
                proof {
                    let rest = cs@.subrange(start as int, n as int);
                    assert(cs@ == port@);
                    assert(rest == (if port@.len() >= 2 && port@[1] == '+' {
                        port@.subrange(2, port@.len() as int)
                    } else {
                        port@.subrange(1, port@.len() as int)
                    }));
                    if rest.len() >= 1 && all_digits(rest) && decimal_value(rest) <= 65535 {
                        assert(port_text(rest, decimal_value(rest) as u16));
                    }
                    assert(r == suffix_port(port@));
                }
                r
            },
        }
    }
}

/// The port that a name's suffix gives: after its first character, an
/// optional `+` and a decimal number that fits a port.
pub open spec fn suffix_port(p: Seq<char>) -> Option<u16> {
    if p.len() == 0 {
        None
    } else {
        let rest = if p.len() >= 2 && p[1] == '+' {
            p.subrange(2, p.len() as int)
        } else {
            p.subrange(1, p.len() as int)
        };
        if rest.len() >= 1 && all_digits(rest) && decimal_value(rest) <= 65535 {
            Some(decimal_value(rest) as u16)
        } else {
            None
        }
    }
}

/// Splits `destination_str` at its first colon into a host and a `:port`
/// suffix; a name without a colon gets the default port.
pub fn add_port_to_hostname(destination_str: &str) -> (r: FedDest)
    ensures
        lacks(destination_str@, ':') ==> is_named(r, destination_str@, ":8448"@),
        forall|k: int|
            #[trigger] first_index_of(destination_str@, ':', k) ==> is_named(
                r,
                destination_str@.subrange(0, k),
                destination_str@.subrange(k, destination_str@.len() as int),
            ),
{
    let cs = chars_of(destination_str);
    match find_char(&cs, 0, ':') {
        None => {
            proof {
                reveal_strlit(":8448");
                assert(cs@.subrange(0, cs@.len() as int) =~= cs@);
            }
            FedDest::Named(string_of(&cs, 0, cs.len()), ":8448".to_owned())
        },
        Some(pos) => {
            proof {
                assert forall|k: int| #[trigger] first_index_of(destination_str@, ':', k) implies k
                    == pos by {
                    if k < pos {
                        assert(cs@[k] != ':');
                    }
                    if pos < k {
                        assert(cs@[pos as int] == ':');
                    }
                }
            }
            FedDest::Named(string_of(&cs, 0, pos), string_of(&cs, pos, cs.len()))
        },
    }
}

/// What the Host header derived from the host name `h` is, as far as it is pinned down.
pub open spec fn host_header_fits(h: Seq<char>, r: FedDest) -> bool {
    &&& (r matches FedDest::Literal(sa) ==> socket_literal_text(h, sa))
    &&& forall|o: Seq<u8>|
        o.len() == 4 && #[trigger] v4_text(o) == h ==> is_named(r, v4_text(o), ":8448"@)
    &&& forall|o: Seq<u8>, t: Seq<char>, p: u16|
        #![trigger v4_text(o), port_text(t, p)]
        o.len() == 4 && h == v4_text(o) + seq![':'] + t && port_text(t, p) ==> (r matches FedDest::Literal(
            sa,
        ) && is_v4_socket(sa, o, p))
    &&& (r matches FedDest::Named(hn, p) ==> (exists|ip: IpAddress|
        bare_ip_text(h, ip) && hn@ == ip_text(ip) && p@ == ":8448"@) || (lacks(h, ':') && hn@ == h
        && p@ == ":8448"@) || (exists|k: int|
        first_index_of(h, ':', k) && hn@ == h.subrange(0, k) && p@ == h.subrange(k, h.len() as int)))
    &&& (lacks(h, ':') && (forall|o: Seq<u8>| o.len() == 4 ==> v4_text(o) != h) ==> is_named(
        r,
        h,
        ":8448"@,
    ))
    &&& forall|a: Seq<u16>| #[trigger] v6_text(h, a) ==> is_named(r, v6_display(a), ":8448"@)
    &&& forall|a: Seq<u16>, p: u16|
        #[trigger] v6_socket_text(h, a, p) ==> (r matches FedDest::Literal(sa) && is_v6_socket(sa, a, p))
    &&& forall|k: int|
        #[trigger] first_index_of(h, ':', k) && no_ip_literal(h) ==> is_named(
            r,
            h.subrange(0, k),
            h.subrange(k, h.len() as int),
        )
}

/// `h` is no IP literal, with or without a port, in any form `get_ip_with_port` takes.
pub open spec fn no_ip_literal(h: Seq<char>) -> bool {
    &&& forall|o: Seq<u8>| o.len() == 4 ==> #[trigger] v4_text(o) != h
    &&& forall|o: Seq<u8>, t: Seq<char>, p: u16|
        #![trigger v4_text(o), port_text(t, p)]
        o.len() == 4 ==> !(h == v4_text(o) + seq![':'] + t && port_text(t, p))
    &&& forall|a: Seq<u16>| !#[trigger] v6_text(h, a)
    &&& forall|a: Seq<u16>, p: u16| !#[trigger] v6_socket_text(h, a, p)
}

/// The value presented as the Host header for the host name the resolution
/// settled on: an IP address with a port as given; an IP address without a
/// port, or a name without a colon, with the default port; otherwise the
/// name split at its first colon.
pub fn host_header(hostname: &str) -> (r: FedDest)
    ensures
        host_header_fits(hostname@, r),
{
    proof {
        reveal_strlit(":8448");
    }
    match read_ip_literal(hostname) {
        Some((sa, true)) => {
            proof {
                if lacks(hostname@, ':') {
                    lemma_literal_without_colon(hostname@, sa, true);
                }
            }
            FedDest::Literal(sa)
        },
        Some((sa, false)) => {
            let mut h = String::new();
            push_ip(&mut h, &sa.ip);
            proof {
                assert(h@ =~= ip_text(sa.ip));
                if lacks(hostname@, ':') {
                    lemma_literal_without_colon(hostname@, sa, false);
                }
            }
            FedDest::Named(h, ":8448".to_owned())
        },
        None => {
            let cs = chars_of(hostname);
            match find_char(&cs, 0, ':') {
                None => {
                    proof {
                        assert(cs@.subrange(0, cs@.len() as int) =~= cs@);
                    }
                    FedDest::Named(string_of(&cs, 0, cs.len()), ":8448".to_owned())
                },
                Some(pos) => {
                    proof {
                        assert(first_index_of(hostname@, ':', pos as int));
                        assert forall|k: int| #[trigger] first_index_of(hostname@, ':', k) implies k == pos by {
                            if k < pos {
                                assert(cs@[k] != ':');
                            }
                            if pos < k {
                                assert(cs@[pos as int] == ':');
                            }
                        }
                    }
                    FedDest::Named(string_of(&cs, 0, pos), string_of(&cs, pos, cs.len()))
                },
            }
        },
    }
}

/// An IP literal is an IP literal.
proof fn lemma_literal_is_ip(s: Seq<char>, sa: SocketAddress, explicit: bool)
    requires
        if explicit {
            socket_literal_text(s, sa)
        } else {
            bare_ip_text(s, sa.ip) && sa.port == DEFAULT_PORT
        },
    ensures
        !no_ip_literal(s),
{
    if explicit {
        match sa.ip {
            IpAddress::V4(a) => {
                let t = choose|t: Seq<char>| s == v4_text(a@) + seq![':'] + t && #[trigger] port_text(t, sa.port);
                assert(!(s == v4_text(a@) + seq![':'] + t && port_text(t, sa.port)) ==> false);
            },
            IpAddress::V6(a) => {
                assert(v6_socket_text(s, a@, sa.port));
            },
        }
    } else {
        match sa.ip {
            IpAddress::V4(a) => {
                assert(v4_text(a@) == s);
            },
            IpAddress::V6(a) => {
                assert(v6_text(s, a@));
            },
        }
    }
}

/// What an IP literal without a colon can be: a dotted quad with no port.
proof fn lemma_literal_without_colon(s: Seq<char>, sa: SocketAddress, explicit: bool)
    requires
        lacks(s, ':'),
        if explicit {
            socket_literal_text(s, sa)
        } else {
            bare_ip_text(s, sa.ip) && sa.port == DEFAULT_PORT
        },
    ensures
        !explicit,
        sa.ip is V4,
        s == v4_text(sa.ip->V4_0@),
{
    if explicit {
        if sa.ip is V4 {
            let t = choose|t: Seq<char>|
                s == v4_text(sa.ip->V4_0@) + seq![':'] + t && #[trigger] port_text(t, sa.port);
            lemma_v4_socket_shape(s, sa.ip->V4_0@, t);
        } else {
            let i = choose|i: int|
                2 <= i + 2 <= s.len() && s[0] == '[' && s[i] == ']' && s[i + 1] == ':'
                    && #[trigger] v6_text(s.subrange(1, i), sa.ip->V6_0@) && port_text(
                    s.subrange(i + 2, s.len() as int),
                    sa.port,
                );
            assert(s[i + 1] == ':');
        }
    } else if sa.ip is V6 {
        lemma_v6_text_has_colon(s, sa.ip->V6_0@);
    }
}

/// Colon-hex text holds a colon.
proof fn lemma_v6_text_has_colon(s: Seq<char>, a: Seq<u16>)
    requires
        v6_text(s, a),
    ensures
        !lacks(s, ':'),
{
    if groups_text(s, a) {
        reveal_with_fuel(groups_text, 1);
        let k = choose|k: int|
            0 <= k < s.len() && #[trigger] s[k] == ':' && groups_text(s.subrange(0, k), a.drop_last())
                && hex_group(s.subrange(k + 1, s.len() as int), a.last());
        assert(s[k] == ':');
    } else if groups_tail_text(s, a) {
        lemma_tail_shape(s, a);
        let o = choose|o: Seq<u8>|
            o.len() == 4 && a.subrange(a.len() - 2, a.len() as int) == v4_groups(o) && ((a.len() == 2
                && s == #[trigger] v4_text(o) && lacks(s, ':')) || exists|k: int|
                0 < k < s.len() && s[k] == ':' && groups_text(s.subrange(0, k), a.subrange(0, a.len() - 2))
                    && s.subrange(k + 1, s.len() as int) == #[trigger] v4_text(o) && lacks(
                    s.subrange(k + 1, s.len() as int),
                    ':',
                ));
        let k = choose|k: int|
            0 < k < s.len() && s[k] == ':' && groups_text(s.subrange(0, k), a.subrange(0, a.len() - 2))
                && s.subrange(k + 1, s.len() as int) == #[trigger] v4_text(o) && lacks(
                s.subrange(k + 1, s.len() as int),
                ':',
            );
        assert(s[k] == ':');
    } else {
        let (i, h, t) = choose|i: int, h: Seq<u16>, t: Seq<u16>|
            0 <= i && i + 2 <= s.len() && s[i] == ':' && s[i + 1] == ':' && #[trigger] groups_or_empty(
                s.subrange(0, i),
                h,
            ) && #[trigger] groups_tail_or_empty(s.subrange(i + 2, s.len() as int), t) && h.len() + t.len()
                <= 7 && a == h + Seq::new((8 - h.len() - t.len()) as nat, |j: int| 0u16) + t;
        assert(s[i] == ':');
    }
}

/// A step of resolving a server name to where it is reached and the Host
/// header to present.
#[derive(Debug, PartialEq)]
pub enum ResolveStep {
    /// Done: where to connect, and the Host header.
    Resolved { destination: FedDest, host: FedDest },
    /// Fetch the name's `.well-known` delegation and continue with
    /// `resolve_after_well_known`.
    FetchWellKnown,
    /// Query the SRV record of `srv_name` and continue with
    /// `resolve_after_srv`; `hostname` gives the Host header.
    QuerySrv { srv_name: String, hostname: String },
}

/// The first step of resolving `server_name`: an IP literal is used as it is
/// (with the default port when it has none), a name with a port too; any
/// other name needs its `.well-known` delegation.
pub fn resolve_start(server_name: &str) -> (r: ResolveStep)
    ensures
        r matches ResolveStep::Resolved { destination: FedDest::Literal(sa), .. } ==> ip_literal_text(
            server_name@,
            sa,
        ),
        forall|o: Seq<u8>|
            o.len() == 4 && #[trigger] v4_text(o) == server_name@ ==> (r matches ResolveStep::Resolved {
                destination: FedDest::Literal(sa),
                host,
            } && is_v4_socket(sa, o, DEFAULT_PORT) && is_named(host, v4_text(o), ":8448"@)),
        forall|o: Seq<u8>, t: Seq<char>, p: u16|
            #![trigger v4_text(o), port_text(t, p)]
            o.len() == 4 && server_name@ == v4_text(o) + seq![':'] + t && port_text(t, p) ==> (r matches ResolveStep::Resolved {
                destination: FedDest::Literal(sa),
                host: FedDest::Literal(sa2),
            } && is_v4_socket(sa, o, p) && sa2 == sa),
        r matches ResolveStep::Resolved { destination: FedDest::Named(h, p), host } ==> exists|k: int|
            #[trigger] first_index_of(server_name@, ':', k) && h@ == server_name@.subrange(0, k) && p@
                == server_name@.subrange(k, server_name@.len() as int) && is_named(
                host,
                server_name@.subrange(0, k),
                server_name@.subrange(k, server_name@.len() as int),
            ),
        r is FetchWellKnown <==> lacks(server_name@, ':') && forall|o: Seq<u8>|
            o.len() == 4 ==> v4_text(o) != server_name@,
        !(r is QuerySrv),
        forall|a: Seq<u16>|
            #[trigger] v6_text(server_name@, a) ==> (r matches ResolveStep::Resolved {
                destination: FedDest::Literal(sa),
                host,
            } && is_v6_socket(sa, a, DEFAULT_PORT) && is_named(host, v6_display(a), ":8448"@)),
        forall|a: Seq<u16>, p: u16|
            #[trigger] v6_socket_text(server_name@, a, p) ==> (r matches ResolveStep::Resolved {
                destination: FedDest::Literal(sa),
                host: FedDest::Literal(sa2),
            } && is_v6_socket(sa, a, p) && sa2 == sa),
        forall|k: int|
            #[trigger] first_index_of(server_name@, ':', k) && no_ip_literal(server_name@) ==> (r matches ResolveStep::Resolved {
                destination,
                host,
            } && is_named(
                destination,
                server_name@.subrange(0, k),
                server_name@.subrange(k, server_name@.len() as int),
            ) && is_named(host, server_name@.subrange(0, k), server_name@.subrange(k, server_name@.len() as int))),
{
    proof {
        reveal_strlit(":8448");
    }
    match read_ip_literal(server_name) {
        Some((sa, explicit)) => {
            let host = if explicit {
                FedDest::Literal(sa)
            } else {
                let mut h = String::new();
                push_ip(&mut h, &sa.ip);
                proof {
                    assert(h@ =~= ip_text(sa.ip));
                }
                FedDest::Named(h, ":8448".to_owned())
            };
            proof {
                lemma_literal_is_ip(server_name@, sa, explicit);
                if lacks(server_name@, ':') {
                    lemma_literal_without_colon(server_name@, sa, explicit);
                }
                assert forall|o: Seq<u8>, t: Seq<char>, p: u16|
                    #![trigger v4_text(o), port_text(t, p)]
                    o.len() == 4 && server_name@ == v4_text(o) + seq![':'] + t && port_text(t, p) implies explicit by {
                }
            }
            ResolveStep::Resolved { destination: FedDest::Literal(sa), host }
        },
        None => {
            let cs = chars_of(server_name);
            match find_char(&cs, 0, ':') {
                Some(pos) => {
                    let host = FedDest::Named(string_of(&cs, 0, pos), string_of(&cs, pos, cs.len()));
                    proof {
                        assert(first_index_of(server_name@, ':', pos as int));
                        assert forall|k: int| #[trigger] first_index_of(server_name@, ':', k) implies k
                            == pos by {
                            if k < pos {
                                assert(cs@[k] != ':');
                            }
                            if pos < k {
                                assert(cs@[pos as int] == ':');
                            }
                        }
                    }
                    let destination = FedDest::Named(string_of(&cs, 0, pos), string_of(&cs, pos, cs.len()));
                    ResolveStep::Resolved { destination, host }
                },
                None => ResolveStep::FetchWellKnown,
            }
        },
    }
}

/// The server name that a `.well-known/matrix/server` document delegates to:
/// its `m.server` string, if the body is JSON that has one.
pub uninterp spec fn well_known_server_of(body: Seq<char>) -> Option<Seq<char>>;

/// Relies on `serde_json::from_str` and `serde_json::Value::get`/`as_str`:
/// the `m.server` string of a JSON body, if it has one.
#[verifier::external_body]
fn well_known_server(body: &str) -> (r: Option<String>)
    ensures
        r is Some <==> well_known_server_of(body@) is Some,
        r matches Some(x) ==> well_known_server_of(body@) == Some(x@),
{
    let value: serde_json::Value = serde_json::from_str(body).ok()?;
    Some(value.get("m.server")?.as_str()?.to_owned())
}

/// The delegated name found in a `.well-known` response body, if one was fetched.
pub open spec fn delegation(well_known_body: Option<String>) -> Option<Seq<char>> {
    match well_known_body {
        None => None,
        Some(b) => well_known_server_of(b@),
    }
}

/// The step after the `.well-known` lookup of `server_name`, which fetched
/// the body `well_known_body` or nothing. Without delegation, the server name
/// goes to the SRV query. A delegated IP literal, or a delegated name with a
/// port, is used as it is; any other delegated name goes to the SRV query.
/// The Host header comes from the delegated name, with the default port when
/// it has none.
pub fn resolve_after_well_known(server_name: &str, well_known_body: Option<String>) -> (r: ResolveStep)
    ensures
        !(r is FetchWellKnown),
        delegation(well_known_body) is None ==> (r matches ResolveStep::QuerySrv { srv_name, hostname } && srv_name@
            == server_name@ && hostname@ == server_name@),
        delegation(well_known_body) matches Some(d) ==> {
            &&& r is QuerySrv <==> lacks(d, ':') && forall|o: Seq<u8>| o.len() == 4 ==> v4_text(o) != d
            &&& r matches ResolveStep::QuerySrv { srv_name, hostname } ==> srv_name@ == d && hostname@
                == d + ":8448"@
            &&& r matches ResolveStep::Resolved { destination: FedDest::Literal(sa), host } ==> ip_literal_text(d, sa)
                && (host == FedDest::Literal(sa) || (sa.ip is V6 && sa.port == DEFAULT_PORT && is_named(host, ip_text(sa.ip), ":8448"@)))
            &&& forall|o: Seq<u8>|
                o.len() == 4 && #[trigger] v4_text(o) == d ==> (r matches ResolveStep::Resolved {
                    destination: FedDest::Literal(sa),
                    host,
                } && is_v4_socket(sa, o, DEFAULT_PORT) && host == FedDest::Literal(sa))
            &&& r matches ResolveStep::Resolved { destination: FedDest::Named(h, p), host } ==> exists|k: int|
                #[trigger] first_index_of(d, ':', k) && h@ == d.subrange(0, k) && p@ == d.subrange(k, d.len() as int)
                && is_named(host, d.subrange(0, k), d.subrange(k, d.len() as int))
            &&& forall|a: Seq<u16>|
                #[trigger] v6_text(d, a) ==> (r matches ResolveStep::Resolved {
                    destination: FedDest::Literal(sa),
                    host,
                } && is_v6_socket(sa, a, DEFAULT_PORT) && is_named(host, v6_display(a), ":8448"@))
            &&& forall|a: Seq<u16>, p: u16|
                #[trigger] v6_socket_text(d, a, p) ==> (r matches ResolveStep::Resolved {
                    destination: FedDest::Literal(sa),
                    host,
                } && is_v6_socket(sa, a, p) && host == FedDest::Literal(sa))
            &&& forall|k: int|
                #[trigger] first_index_of(d, ':', k) && no_ip_literal(d) ==> (r matches ResolveStep::Resolved {
                    destination,
                    host,
                } && is_named(destination, d.subrange(0, k), d.subrange(k, d.len() as int)) && is_named(
                    host,
                    d.subrange(0, k),
                    d.subrange(k, d.len() as int),
                ))
        },
{
    proof {
        reveal_strlit(":8448");
    }
    let ghost body_in = well_known_body;
    let delegated = match well_known_body {
        None => None,
        Some(body) => well_known_server(body.as_str()),
    };
    proof {
        assert(delegated is Some <==> delegation(body_in) is Some);
        if delegated is Some {
            assert(delegation(body_in) == Some(delegated->0@));
        }
    }
    let d = match delegated {
        None => {
            let mut a = String::new();
            push_str(&mut a, server_name);
            let mut b = String::new();
            push_str(&mut b, server_name);
            return ResolveStep::QuerySrv { srv_name: a, hostname: b };
        },
        Some(d) => d,
    };
    match read_ip_literal(d.as_str()) {
        Some((sa, explicit)) => {
            let host = if explicit || sa.ip.is_v4() {
                FedDest::Literal(sa)
            } else {
                let mut h = String::new();
                push_ip(&mut h, &sa.ip);
                proof {
                    assert(h@ =~= ip_text(sa.ip));
                }
                FedDest::Named(h, ":8448".to_owned())
            };
            proof {
                lemma_literal_is_ip(d@, sa, explicit);
                if lacks(d@, ':') {
                    lemma_literal_without_colon(d@, sa, explicit);
                }
            }
            ResolveStep::Resolved { destination: FedDest::Literal(sa), host }
        },
        None => {
            let cs = chars_of(d.as_str());
            match find_char(&cs, 0, ':') {
                Some(pos) => {
                    proof {
                        assert(first_index_of(d@, ':', pos as int));
                        assert forall|k: int| #[trigger] first_index_of(d@, ':', k) implies k == pos by {
                            if k < pos {
                                assert(cs@[k] != ':');
                            }
                            if pos < k {
                                assert(cs@[pos as int] == ':');
                            }
                        }
                    }
                    let h = string_of(&cs, 0, pos);
                    let p = string_of(&cs, pos, cs.len());
                    let host = FedDest::Named(string_of(&cs, 0, pos), string_of(&cs, pos, cs.len()));
                    ResolveStep::Resolved { destination: FedDest::Named(h, p), host }
                },
                None => {
                    let mut hostname = String::new();
                    push_str(&mut hostname, d.as_str());
                    push_str(&mut hostname, ":8448");
                    ResolveStep::QuerySrv { srv_name: d, hostname }
                },
            }
        },
    }
}

impl IpAddress {
    /// Whether this is an IPv4 address.
    pub fn is_v4(&self) -> (r: bool)
        ensures
            r == (*self is V4),
    {
        match self {
            IpAddress::V4(_) => true,
            IpAddress::V6(_) => false,
        }
    }
}

/// The end of a resolution after the SRV query of `srv_name`.
#[derive(Debug, PartialEq)]
pub struct SrvResolution {
    /// Where to connect.
    pub destination: FedDest,
    /// The Host header.
    pub host: FedDest,
    /// The name and port under which the addresses of the SRV target are to
    /// be used for the connection, when the SRV record was found.
    pub tls_override: Option<(String, u16)>,
}

/// The last step of a resolution: with an SRV record for `srv_name` whose
/// port is `srv_port`, the name is used with that port, and its connection
/// goes to the SRV target's addresses; without one, the name is used with
/// the default port (or with the port it has). The Host header comes from
/// `hostname`.
pub fn resolve_after_srv(srv_name: &str, hostname: &str, srv_port: Option<u16>) -> (r: SrvResolution)
    ensures
        srv_port matches Some(p) ==> (is_named(r.destination, srv_name@, seq![':'] + decimal_text(p as nat))
            && (r.tls_override matches Some((n, q)) && n@ == srv_name@ && q == p)),
        srv_port is None ==> r.tls_override is None && (lacks(srv_name@, ':') ==> is_named(
            r.destination,
            srv_name@,
            ":8448"@,
        )) && forall|k: int|
            #[trigger] first_index_of(srv_name@, ':', k) ==> is_named(
                r.destination,
                srv_name@.subrange(0, k),
                srv_name@.subrange(k, srv_name@.len() as int),
            ),
        host_header_fits(hostname@, r.host),
{
    let host = host_header(hostname);
    match srv_port {
        Some(p) => {
            let mut name = String::new();
            push_str(&mut name, srv_name);
            let mut port = String::new();
            push_char(&mut port, ':');
            push_str(&mut port, u64_text(p as u64).as_str());
            let mut key = String::new();
            push_str(&mut key, srv_name);
            proof {
                assert(port@ =~= seq![':'] + decimal_text(p as nat));
            }
            SrvResolution { destination: FedDest::Named(name, port), host, tls_override: Some((key, p)) }
        },
        None => SrvResolution {
            destination: add_port_to_hostname(srv_name),
            host,
            tls_override: None,
        },
    }
}

} // verus!

use vstd::prelude::*;
use crate::digits::{
    all_digits, dec_val, digit_boundary, is_digit, lemma_dec_val_prefix, matches_at, parse_u64_at,
    str_eq,
};
use crate::json::{cat, cat_upto, lemma_cat_elem, lemma_cat_step, lemma_matches_first, parse_lit};

verus! {

/// A subnet of the address pool: the network address, the prefix
/// length, and one bit per address marking it allocated.
pub struct SubNet {
    pub ip: [u8; 4],
    pub mask: u8,
    pub bitmap: Vec<u8>,
}

/// Numeric value of a dotted-quad address, most significant byte first.
pub open spec fn ip_val(ip: Seq<u8>) -> int {
    ip[0] * 0x1000000 + ip[1] * 0x10000 + ip[2] * 0x100 + ip[3]
}

/// Number of addresses the subnet spans.
pub open spec fn sn_size(mask: u8) -> int {
    (1u64 << ((32 - mask) as u64)) as int
}

/// Address `i` of the pool is marked allocated.
pub open spec fn bit_set(bm: Seq<u8>, i: int) -> bool {
    bm[i / 8] & (1u8 << ((i % 8) as u8)) != 0
}

impl SubNet {
    /// The bitmap covers the whole pool, one bit per address.
    pub open spec fn wf(&self) -> bool {
        &&& self.mask <= 32
        &&& self.bitmap@.len() == (sn_size(self.mask) + 7) / 8
    }

    /// The pool never allocates past the address space.
    pub open spec fn in_range(&self) -> bool {
        ip_val(self.ip@) + sn_size(self.mask) <= 0x1_0000_0000
    }
}

/// One number of a subnet specification, as the store reads it: an
/// optional leading plus sign and a nonempty digit run whose value it
/// carries.
pub open spec fn num_text(t: Seq<char>, v: u8) -> bool {
    ||| (t.len() >= 1 && all_digits(t) && dec_val(t) == v)
    ||| (t.len() >= 2 && t[0] == '+' && all_digits(t.subrange(1, t.len() as int)) && dec_val(
        t.subrange(1, t.len() as int),
    ) == v)
}

/// The text of a subnet specification: the four octet numbers and the
/// prefix length, dot- and slash-separated, one segment each.
pub open spec fn subnet_text_parts(
    t0: Seq<char>,
    t1: Seq<char>,
    t2: Seq<char>,
    t3: Seq<char>,
    t4: Seq<char>,
) -> Seq<Seq<char>> {
    seq![t0, "."@, t1, "."@, t2, "."@, t3, "/"@, t4]
}

/// `s` spells the subnet `a.b.c.d/m` with the given five number texts.
pub open spec fn subnet_texts(
    s: Seq<char>,
    t0: Seq<char>,
    t1: Seq<char>,
    t2: Seq<char>,
    t3: Seq<char>,
    t4: Seq<char>,
    a: u8,
    b: u8,
    c: u8,
    d: u8,
    m: u8,
) -> bool {
    &&& s == cat(subnet_text_parts(t0, t1, t2, t3, t4))
    &&& num_text(t0, a)
    &&& num_text(t1, b)
    &&& num_text(t2, c)
    &&& num_text(t3, d)
    &&& num_text(t4, m)
}

/// `s` spells some subnet with a prefix length of at most 32.
pub open spec fn is_subnet_text(s: Seq<char>) -> bool {
    exists|
        t0: Seq<char>,
        t1: Seq<char>,
        t2: Seq<char>,
        t3: Seq<char>,
        t4: Seq<char>,
        a: u8,
        b: u8,
        c: u8,
        d: u8,
        m: u8,
    |
        #[trigger] subnet_texts(s, t0, t1, t2, t3, t4, a, b, c, d, m) && m <= 32
}

/// A number text never holds a dot, a slash, or a quote.
proof fn lemma_num_text_chars(t: Seq<char>, v: u8)
    requires
        num_text(t, v),
    ensures
        t.len() >= 1,
        forall|j: int| 0 <= j < t.len() ==> #[trigger] t[j] == '+' || is_digit(t[j]),
{
    if t.len() >= 1 && all_digits(t) && dec_val(t) == v {
        assert(forall|j: int| 0 <= j < t.len() ==> is_digit(#[trigger] t[j]));
    } else {
        let d = t.subrange(1, t.len() as int);
        assert(forall|j: int| 1 <= j < t.len() ==> t[j] == d[j - 1] && is_digit(#[trigger] t[j]));
    }
}

/// Where a subnet specification is the whole text, each of its numbers
/// and separators stands at its own offset and each number ends at a
/// non-digit or at the end.
proof fn subnet_facts(
    sv: Seq<char>,
    t0: Seq<char>,
    t1: Seq<char>,
    t2: Seq<char>,
    t3: Seq<char>,
    t4: Seq<char>,
    a: u8,
    b: u8,
    c: u8,
    d: u8,
    m: u8,
)
    requires
        subnet_texts(sv, t0, t1, t2, t3, t4, a, b, c, d, m),
    ensures
        forall|k: int|
            0 <= k < 9 ==> matches_at(
                sv,
                cat_upto(subnet_text_parts(t0, t1, t2, t3, t4), k),
                #[trigger] subnet_text_parts(t0, t1, t2, t3, t4)[k],
            ),
        cat_upto(subnet_text_parts(t0, t1, t2, t3, t4), 0) == 0,
        cat_upto(subnet_text_parts(t0, t1, t2, t3, t4), 1) == cat_upto(
            subnet_text_parts(t0, t1, t2, t3, t4),
            0,
        ) + subnet_text_parts(t0, t1, t2, t3, t4)[0].len(),
        cat_upto(subnet_text_parts(t0, t1, t2, t3, t4), 2) == cat_upto(
            subnet_text_parts(t0, t1, t2, t3, t4),
            1,
        ) + subnet_text_parts(t0, t1, t2, t3, t4)[1].len(),
        cat_upto(subnet_text_parts(t0, t1, t2, t3, t4), 3) == cat_upto(
            subnet_text_parts(t0, t1, t2, t3, t4),
            2,
        ) + subnet_text_parts(t0, t1, t2, t3, t4)[2].len(),
        cat_upto(subnet_text_parts(t0, t1, t2, t3, t4), 4) == cat_upto(
            subnet_text_parts(t0, t1, t2, t3, t4),
            3,
        ) + subnet_text_parts(t0, t1, t2, t3, t4)[3].len(),
        cat_upto(subnet_text_parts(t0, t1, t2, t3, t4), 5) == cat_upto(
            subnet_text_parts(t0, t1, t2, t3, t4),
            4,
        ) + subnet_text_parts(t0, t1, t2, t3, t4)[4].len(),
        cat_upto(subnet_text_parts(t0, t1, t2, t3, t4), 6) == cat_upto(
            subnet_text_parts(t0, t1, t2, t3, t4),
            5,
        ) + subnet_text_parts(t0, t1, t2, t3, t4)[5].len(),
        cat_upto(subnet_text_parts(t0, t1, t2, t3, t4), 7) == cat_upto(
            subnet_text_parts(t0, t1, t2, t3, t4),
            6,
        ) + subnet_text_parts(t0, t1, t2, t3, t4)[6].len(),
        cat_upto(subnet_text_parts(t0, t1, t2, t3, t4), 8) == cat_upto(
            subnet_text_parts(t0, t1, t2, t3, t4),
            7,
        ) + subnet_text_parts(t0, t1, t2, t3, t4)[7].len(),
        cat_upto(subnet_text_parts(t0, t1, t2, t3, t4), 9) == cat_upto(
            subnet_text_parts(t0, t1, t2, t3, t4),
            8,
        ) + subnet_text_parts(t0, t1, t2, t3, t4)[8].len(),
        sv.len() == cat_upto(subnet_text_parts(t0, t1, t2, t3, t4), 9),
        digit_boundary(sv, cat_upto(subnet_text_parts(t0, t1, t2, t3, t4), 1)),
        digit_boundary(sv, cat_upto(subnet_text_parts(t0, t1, t2, t3, t4), 3)),
        digit_boundary(sv, cat_upto(subnet_text_parts(t0, t1, t2, t3, t4), 5)),
        digit_boundary(sv, cat_upto(subnet_text_parts(t0, t1, t2, t3, t4), 7)),
        digit_boundary(sv, cat_upto(subnet_text_parts(t0, t1, t2, t3, t4), 9)),
{
    let parts = subnet_text_parts(t0, t1, t2, t3, t4);
    assert(sv.subrange(0, sv.len() as int) =~= sv);
    assert(matches_at(sv, 0, cat(parts)));
    assert forall|k: int| 0 <= k < 9 implies matches_at(
        sv,
        cat_upto(parts, k),
        #[trigger] parts[k],
    ) by {
        lemma_cat_elem(sv, 0, parts, k);
    }
    lemma_cat_step(parts, 0);
    lemma_cat_step(parts, 1);
    lemma_cat_step(parts, 2);
    lemma_cat_step(parts, 3);
    lemma_cat_step(parts, 4);
    lemma_cat_step(parts, 5);
    lemma_cat_step(parts, 6);
    lemma_cat_step(parts, 7);
    lemma_cat_step(parts, 8);
    assert(parts.subrange(0, 9) =~= parts);
    reveal_strlit(".");
    reveal_strlit("/");
    lemma_matches_first(sv, cat_upto(parts, 1), parts[1]);
    lemma_matches_first(sv, cat_upto(parts, 3), parts[3]);
    lemma_matches_first(sv, cat_upto(parts, 5), parts[5]);
    lemma_matches_first(sv, cat_upto(parts, 7), parts[7]);
    assert(sv[cat_upto(parts, 1)] == '.' && !is_digit('.'));
    assert(sv[cat_upto(parts, 3)] == '.');
    assert(sv[cat_upto(parts, 5)] == '.');
    assert(sv[cat_upto(parts, 7)] == '/' && !is_digit('/'));
}

/// Read one number of a subnet specification: an optional plus sign
/// and the following digit run, refused above 255.  Any such number
/// text followed by a non-digit is read back to its value.
#[verifier::rlimit(60)]
fn parse_num_u8(s: &str, n: usize, i: usize) -> (r: Option<(u8, usize)>)
    requires
        n == s@.len(),
        i <= n,
    ensures
        match r {
            Some(vj) => {
                &&& i < vj.1 <= n
                &&& num_text(s@.subrange(i as int, vj.1 as int), vj.0)
                &&& digit_boundary(s@, vj.1 as int)
            },
            None => true,
        },
        forall|t: Seq<char>, m: u8|
            #[trigger] num_text(t, m) && #[trigger] matches_at(s@, i as int, t)
                && digit_boundary(s@, i + t.len()) ==> r == Some::<(u8, usize)>(
                (m, (i + t.len()) as usize),
            ),
{
    let ghost sv = s@;
    let mut j = i;
    let mut plus = false;
    if j < n {
        if s.get_char(j) == '+' {
            plus = true;
            j = j + 1;
        }
    }
    let r0 = parse_u64_at(s, n, j);
    let result: Option<(u8, usize)> = match r0 {
        None => None,
        Some((v, e)) => {
            if v <= 255 {
                proof {
                    let whole = sv.subrange(i as int, e as int);
                    let run = sv.subrange(j as int, e as int);
                    if plus {
                        assert(whole[0] == '+');
                        assert(whole.subrange(1, whole.len() as int) =~= run);
                    } else {
                        assert(whole =~= run);
                    }
                    assert(num_text(whole, (v as u8)));
                }
                Some((v as u8, e))
            } else {
                None
            }
        },
    };
    proof {
        assert forall|t: Seq<char>, m: u8|
            #[trigger] num_text(t, m) && #[trigger] matches_at(sv, i as int, t)
                && digit_boundary(sv, i + t.len()) implies result == Some::<(u8, usize)>(
            (m, (i + t.len()) as usize),
        ) by {
            lemma_num_text_chars(t, m);
            let has_plus = t[0] == '+';
            assert(sv[i as int] == t[0]) by {
                lemma_matches_first(sv, i as int, t);
            }
            // the digit run of the text, and where it stands
            let digits = if has_plus {
                t.subrange(1, t.len() as int)
            } else {
                t
            };
            let dstart = if has_plus {
                i + 1
            } else {
                i as int
            };
            assert(plus == has_plus);
            assert(j == dstart);
            assert(digits.len() >= 1 && all_digits(digits) && dec_val(digits) == m);
            assert(matches_at(sv, dstart, digits)) by {
                if has_plus {
                    assert forall|x: int| 0 <= x < digits.len() implies sv.subrange(
                        dstart,
                        dstart + digits.len(),
                    )[x] == digits[x] by {
                        assert(sv[dstart + x] == sv.subrange(i as int, i + t.len())[x + 1]);
                    }
                    assert(sv.subrange(dstart, dstart + digits.len()) =~= digits);
                }
            }
            assert(digit_boundary(sv, dstart + digits.len()));
            match r0 {
                None => {
                    // the run begins with a digit, and its value fits
                    assert(is_digit(sv[dstart])) by {
                        assert(sv[dstart] == digits[0]);
                    }
                    assert(dstart < sv.len());
                    let k = choose|k: int|
                        j < k <= n && all_digits(sv.subrange(j as int, k)) && dec_val(
                            sv.subrange(j as int, k),
                        ) > u64::MAX;
                    if k > dstart + digits.len() {
                        assert(is_digit(sv.subrange(j as int, k)[dstart + digits.len() - j]));
                        assert(false);
                    }
                    assert(digits.subrange(0, k - dstart) =~= sv.subrange(j as int, k));
                    lemma_dec_val_prefix(digits, k - dstart);
                    assert(false);
                },
                Some((v, e)) => {
                    // the maximal run ends exactly where the text does
                    if e < dstart + digits.len() {
                        assert(is_digit(sv[e as int])) by {
                            assert(sv[e as int] == digits[e - dstart]);
                        }
                        assert(false);
                    }
                    if e > dstart + digits.len() {
                        assert(is_digit(sv.subrange(j as int, e as int)[dstart + digits.len()
                            - j]));
                        assert(false);
                    }
                    assert(sv.subrange(j as int, e as int) =~= digits);
                    assert(v == m);
                },
            }
        }
    }
    result
}

/// Five number texts and the four separators, found one after the
/// other from the start to the end of the text, assemble to the whole.
proof fn lemma_quad_assemble(
    sv: Seq<char>,
    u0: Seq<char>,
    u1: Seq<char>,
    u2: Seq<char>,
    u3: Seq<char>,
    u4: Seq<char>,
    q1: int,
    q2: int,
    q3: int,
    q4: int,
    q5: int,
    q6: int,
    q7: int,
    q8: int,
    q9: int,
)
    requires
        matches_at(sv, 0, u0),
        q1 == u0.len(),
        matches_at(sv, q1, "."@),
        q2 == q1 + "."@.len(),
        matches_at(sv, q2, u1),
        q3 == q2 + u1.len(),
        matches_at(sv, q3, "."@),
        q4 == q3 + "."@.len(),
        matches_at(sv, q4, u2),
        q5 == q4 + u2.len(),
        matches_at(sv, q5, "."@),
        q6 == q5 + "."@.len(),
        matches_at(sv, q6, u3),
        q7 == q6 + u3.len(),
        matches_at(sv, q7, "/"@),
        q8 == q7 + "/"@.len(),
        matches_at(sv, q8, u4),
        q9 == q8 + u4.len(),
        q9 == sv.len(),
    ensures
        sv == cat(subnet_text_parts(u0, u1, u2, u3, u4)),
{
    let parts = subnet_text_parts(u0, u1, u2, u3, u4);
    assert(cat(parts.subrange(0, 0)) =~= Seq::<char>::empty());
    assert(sv.subrange(0, 0) =~= Seq::<char>::empty());
    assert(matches_at(sv, 0, cat(parts.subrange(0, 0))));
    lemma_cat_step(parts, 0);
    crate::json::lemma_matches_join(sv, 0, cat(parts.subrange(0, 0)), parts[0]);
    assert(q1 == cat_upto(parts, 1));
    lemma_cat_step(parts, 1);
    crate::json::lemma_matches_join(sv, 0, cat(parts.subrange(0, 1)), parts[1]);
    assert(q2 == cat_upto(parts, 2));
    lemma_cat_step(parts, 2);
    crate::json::lemma_matches_join(sv, 0, cat(parts.subrange(0, 2)), parts[2]);
    assert(q3 == cat_upto(parts, 3));
    lemma_cat_step(parts, 3);
    crate::json::lemma_matches_join(sv, 0, cat(parts.subrange(0, 3)), parts[3]);
    assert(q4 == cat_upto(parts, 4));
    lemma_cat_step(parts, 4);
    crate::json::lemma_matches_join(sv, 0, cat(parts.subrange(0, 4)), parts[4]);
    assert(q5 == cat_upto(parts, 5));
    lemma_cat_step(parts, 5);
    crate::json::lemma_matches_join(sv, 0, cat(parts.subrange(0, 5)), parts[5]);
    assert(q6 == cat_upto(parts, 6));
    lemma_cat_step(parts, 6);
    crate::json::lemma_matches_join(sv, 0, cat(parts.subrange(0, 6)), parts[6]);
    assert(q7 == cat_upto(parts, 7));
    lemma_cat_step(parts, 7);
    crate::json::lemma_matches_join(sv, 0, cat(parts.subrange(0, 7)), parts[7]);
    assert(q8 == cat_upto(parts, 8));
    lemma_cat_step(parts, 8);
    crate::json::lemma_matches_join(sv, 0, cat(parts.subrange(0, 8)), parts[8]);
    assert(q9 == cat_upto(parts, 9));
    assert(parts.subrange(0, 9) =~= parts);
    assert(matches_at(sv, 0, cat(parts)));
    assert(sv.subrange(0, sv.len() as int) =~= sv);
}

/// Read the five numbers of `a.b.c.d/m`; exactly the texts that spell
/// such a subnet are accepted, and to exactly their values.
#[verifier::rlimit(100)]
fn parse_quad(s: &str) -> (r: Option<(u8, u8, u8, u8, u8)>)
    ensures
        match r {
            Some(q) => exists|t0: Seq<char>, t1: Seq<char>, t2: Seq<char>, t3: Seq<char>, t4: Seq<char>|
                #[trigger] subnet_texts(s@, t0, t1, t2, t3, t4, q.0, q.1, q.2, q.3, q.4),
            None => true,
        },
        forall|
            t0: Seq<char>,
            t1: Seq<char>,
            t2: Seq<char>,
            t3: Seq<char>,
            t4: Seq<char>,
            a: u8,
            b: u8,
            c: u8,
            d: u8,
            m: u8,
        |
            #[trigger] subnet_texts(s@, t0, t1, t2, t3, t4, a, b, c, d, m) ==> r == Some::<
                (u8, u8, u8, u8, u8),
            >((a, b, c, d, m)),
{
    let ghost sv = s@;
    let n = s.unicode_len();
    let mut ok = true;
    let mut pos: usize = 0;
    let mut va: u8 = 0;
    let mut vb: u8 = 0;
    let mut vc: u8 = 0;
    let mut vd: u8 = 0;
    let mut vm: u8 = 0;

    let ghost q0 = pos;
    match parse_num_u8(s, n, pos) {
        Some((v, p)) => {
            va = v;
            pos = p;
        },
        None => ok = false,
    }
    let ghost ok1 = ok;
    let ghost q1 = pos;
    if ok {
        match parse_lit(s, n, pos, ".") {
            Some(p) => pos = p,
            None => ok = false,
        }
    }
    let ghost ok2 = ok;
    let ghost q2 = pos;
    if ok {
        match parse_num_u8(s, n, pos) {
            Some((v, p)) => {
                vb = v;
                pos = p;
            },
            None => ok = false,
        }
    }
    let ghost ok3 = ok;
    let ghost q3 = pos;
    if ok {
        match parse_lit(s, n, pos, ".") {
            Some(p) => pos = p,
            None => ok = false,
        }
    }
    let ghost ok4 = ok;
    let ghost q4 = pos;
    if ok {
        match parse_num_u8(s, n, pos) {
            Some((v, p)) => {
                vc = v;
                pos = p;
            },
            None => ok = false,
        }
    }
    let ghost ok5 = ok;
    let ghost q5 = pos;
    if ok {
        match parse_lit(s, n, pos, ".") {
            Some(p) => pos = p,
            None => ok = false,
        }
    }
    let ghost ok6 = ok;
    let ghost q6 = pos;
    if ok {
        match parse_num_u8(s, n, pos) {
            Some((v, p)) => {
                vd = v;
                pos = p;
            },
            None => ok = false,
        }
    }
    let ghost ok7 = ok;
    let ghost q7 = pos;
    if ok {
        match parse_lit(s, n, pos, "/") {
            Some(p) => pos = p,
            None => ok = false,
        }
    }
    let ghost ok8 = ok;
    let ghost q8 = pos;
    if ok {
        match parse_num_u8(s, n, pos) {
            Some((v, p)) => {
                vm = v;
                pos = p;
            },
            None => ok = false,
        }
    }
    let ghost ok9 = ok;
    let ghost q9 = pos;
    if ok && pos != n {
        ok = false;
    }
    let result: Option<(u8, u8, u8, u8, u8)> = if ok {
        Some((va, vb, vc, vd, vm))
    } else {
        None
    };
    proof {
        if ok {
            let u0 = sv.subrange(q0 as int, q1 as int);
            let u1 = sv.subrange(q2 as int, q3 as int);
            let u2 = sv.subrange(q4 as int, q5 as int);
            let u3 = sv.subrange(q6 as int, q7 as int);
            let u4 = sv.subrange(q8 as int, q9 as int);
            assert(matches_at(sv, q0 as int, u0)) by {
                assert(sv.subrange(q0 as int, q0 + u0.len()) =~= u0);
            }
            assert(matches_at(sv, q2 as int, u1)) by {
                assert(sv.subrange(q2 as int, q2 + u1.len()) =~= u1);
            }
            assert(matches_at(sv, q4 as int, u2)) by {
                assert(sv.subrange(q4 as int, q4 + u2.len()) =~= u2);
            }
            assert(matches_at(sv, q6 as int, u3)) by {
                assert(sv.subrange(q6 as int, q6 + u3.len()) =~= u3);
            }
            assert(matches_at(sv, q8 as int, u4)) by {
                assert(sv.subrange(q8 as int, q8 + u4.len()) =~= u4);
            }
            lemma_quad_assemble(
                sv,
                u0,
                u1,
                u2,
                u3,
                u4,
                q1 as int,
                q2 as int,
                q3 as int,
                q4 as int,
                q5 as int,
                q6 as int,
                q7 as int,
                q8 as int,
                q9 as int,
            );
            assert(subnet_texts(sv, u0, u1, u2, u3, u4, va, vb, vc, vd, vm));
            let q = result->Some_0;
            assert(subnet_texts(s@, u0, u1, u2, u3, u4, q.0, q.1, q.2, q.3, q.4));
        }
        assert forall|
            t0: Seq<char>,
            t1: Seq<char>,
            t2: Seq<char>,
            t3: Seq<char>,
            t4: Seq<char>,
            a: u8,
            b: u8,
            c: u8,
            d: u8,
            m: u8,
        |
            #[trigger] subnet_texts(sv, t0, t1, t2, t3, t4, a, b, c, d, m) implies result
            == Some::<(u8, u8, u8, u8, u8)>((a, b, c, d, m)) by {
            subnet_facts(sv, t0, t1, t2, t3, t4, a, b, c, d, m);
            let parts = subnet_text_parts(t0, t1, t2, t3, t4);
            assert(parts[1] == "."@ && parts[3] == "."@ && parts[5] == "."@ && parts[7] == "/"@);
            assert(matches_at(sv, cat_upto(parts, 0), parts[0]));
            assert(matches_at(sv, 0, t0));
            assert(ok1 && va == a && q1 as int == cat_upto(parts, 1));
            assert(matches_at(sv, q1 as int, "."@));
            assert(ok2 && q2 as int == cat_upto(parts, 2));
            assert(matches_at(sv, q2 as int, t1));
            assert(ok3 && vb == b && q3 as int == cat_upto(parts, 3));
            assert(matches_at(sv, q3 as int, "."@));
            assert(ok4 && q4 as int == cat_upto(parts, 4));
            assert(matches_at(sv, q4 as int, t2));
            assert(ok5 && vc == c && q5 as int == cat_upto(parts, 5));
            assert(matches_at(sv, q5 as int, "."@));
            assert(ok6 && q6 as int == cat_upto(parts, 6));
            assert(matches_at(sv, q6 as int, t3));
            assert(ok7 && vd == d && q7 as int == cat_upto(parts, 7));
            assert(matches_at(sv, q7 as int, "/"@));
            assert(ok8 && q8 as int == cat_upto(parts, 8));
            assert(matches_at(sv, q8 as int, t4));
            assert(ok9 && vm == m && q9 as int == cat_upto(parts, 9));
            assert(q9 == n);
            assert(ok);
        }
    }
    result
}

impl SubNet {
    /// Read a subnet specification `a.b.c.d/m` with a prefix length of
    /// at most 32: each number may carry a leading plus sign or leading
    /// zeros, exactly as the store's number reading takes them.  The
    /// bitmap starts empty but for the network address itself, which is
    /// marked allocated.
    pub fn from_str(s: &str) -> (r: Option<SubNet>)
        ensures
            r is Some <==> is_subnet_text(s@),
            match r {
                Some(sn) => {
                    &&& sn.wf()
                    &&& sn.mask <= 32
                    &&& exists|
                        t0: Seq<char>,
                        t1: Seq<char>,
                        t2: Seq<char>,
                        t3: Seq<char>,
                        t4: Seq<char>,
                    |
                        #[trigger] subnet_texts(
                            s@,
                            t0,
                            t1,
                            t2,
                            t3,
                            t4,
                            sn.ip[0],
                            sn.ip[1],
                            sn.ip[2],
                            sn.ip[3],
                            sn.mask,
                        )
                    &&& bit_set(sn.bitmap@, 0)
                    &&& forall|i: int|
                        0 < i < sn_size(sn.mask) ==> !bit_set(sn.bitmap@, i)
                },
                None => true,
            },
            forall|
                t0: Seq<char>,
                t1: Seq<char>,
                t2: Seq<char>,
                t3: Seq<char>,
                t4: Seq<char>,
                a: u8,
                b: u8,
                c: u8,
                d: u8,
                m: u8,
            |
                #[trigger] subnet_texts(s@, t0, t1, t2, t3, t4, a, b, c, d, m) && m <= 32
                    ==> match r {
                    Some(sn) => sn.ip[0] == a && sn.ip[1] == b && sn.ip[2] == c && sn.ip[3] == d
                        && sn.mask == m,
                    None => false,
                },
    {
        let quad = parse_quad(s);
        let (va, vb, vc, vd, mask) = match quad {
            Some(t) => t,
            None => {
                proof {
                    if is_subnet_text(s@) {
                        let (t0, t1, t2, t3, t4, a, b, c, d, m): (
                            Seq<char>,
                            Seq<char>,
                            Seq<char>,
                            Seq<char>,
                            Seq<char>,
                            u8,
                            u8,
                            u8,
                            u8,
                            u8,
                        ) = choose|
                            t0: Seq<char>,
                            t1: Seq<char>,
                            t2: Seq<char>,
                            t3: Seq<char>,
                            t4: Seq<char>,
                            a: u8,
                            b: u8,
                            c: u8,
                            d: u8,
                            m: u8,
                        |
                            #[trigger] subnet_texts(s@, t0, t1, t2, t3, t4, a, b, c, d, m) && m
                                <= 32;
                        assert(false);
                    }
                }
                return None;
            },
        };
        if mask > 32 {
            proof {
                if is_subnet_text(s@) {
                    let (t0, t1, t2, t3, t4, a, b, c, d, m): (
                        Seq<char>,
                        Seq<char>,
                        Seq<char>,
                        Seq<char>,
                        Seq<char>,
                        u8,
                        u8,
                        u8,
                        u8,
                        u8,
                    ) = choose|
                        t0: Seq<char>,
                        t1: Seq<char>,
                        t2: Seq<char>,
                        t3: Seq<char>,
                        t4: Seq<char>,
                        a: u8,
                        b: u8,
                        c: u8,
                        d: u8,
                        m: u8,
                    |
                        #[trigger] subnet_texts(s@, t0, t1, t2, t3, t4, a, b, c, d, m) && m <= 32;
                    assert(false);
                }
            }
            return None;
        }
        let size: u64 = 1u64 << ((32 - mask) as u64);
        proof {
            let sh = (32 - mask) as u64;
            assert(1 <= size <= 0x1_0000_0000u64) by (bit_vector)
                requires
                    size == 1u64 << sh,
                    sh <= 32,
            ;
        }
        let blen_u64: u64 = (size + 7) / 8;
        let blen: usize = blen_u64 as usize;
        let mut bitmap: Vec<u8> = Vec::new();
        bitmap.push(1);
        proof {
            assert(blen >= 1);
        }
        let mut j: usize = 1;
        while j < blen
            invariant
                1 <= j <= blen,
                1 <= blen,
                bitmap@.len() == j,
                bitmap@[0] == 1,
                forall|t: int| 1 <= t < j ==> bitmap@[t] == 0,
            decreases blen - j,
        {
            bitmap.push(0);
            j = j + 1;
        }
        let vals: [u8; 4] = [va, vb, vc, vd];
        let sn = SubNet { ip: vals, mask, bitmap };
        proof {
            let (t0, t1, t2, t3, t4): (Seq<char>, Seq<char>, Seq<char>, Seq<char>, Seq<char>) =
                choose|t0: Seq<char>, t1: Seq<char>, t2: Seq<char>, t3: Seq<char>, t4: Seq<char>|
                #[trigger] subnet_texts(s@, t0, t1, t2, t3, t4, va, vb, vc, vd, mask);
            assert(subnet_texts(s@, t0, t1, t2, t3, t4, va, vb, vc, vd, mask) && mask <= 32);
            assert(is_subnet_text(s@));
            assert(sn.ip[0] == va && sn.ip[1] == vb && sn.ip[2] == vc && sn.ip[3] == vd);
            assert(subnet_texts(s@, t0, t1, t2, t3, t4, sn.ip[0], sn.ip[1], sn.ip[2], sn.ip[3],
                sn.mask));
            assert(sn.bitmap@.len() >= 1);
            assert(sn.bitmap@.len() == (sn_size(sn.mask) + 7) / 8);
            assert(bit_set(sn.bitmap@, 0)) by {
                assert(sn.bitmap@[0] == 1);
                assert(1u8 & (1u8 << 0u8) != 0) by (bit_vector);
            }
            assert forall|i: int| 0 < i < sn_size(sn.mask) implies !bit_set(sn.bitmap@, i) by {
                assert(0 <= i / 8 < sn.bitmap@.len());
                let sh = (i % 8) as u8;
                if i / 8 == 0 {
                    assert(sn.bitmap@[0] == 1);
                    assert(1 <= i % 8 < 8);
                    assert(1u8 & (1u8 << sh) == 0) by (bit_vector)
                        requires
                            1 <= sh < 8,
                    ;
                } else {
                    assert(sn.bitmap@[i / 8] == 0);
                    assert(0u8 & (1u8 << sh) == 0) by (bit_vector)
                        requires
                            sh < 8,
                    ;
                }
            }
        }
        Some(sn)
    }
}

/// One bit of the pool, flipped: the address at `offset` marked
/// allocated, or returned.
pub open spec fn bm_set(bm: Seq<u8>, offset: int) -> Seq<u8> {
    bm.update(offset / 8, (bm[offset / 8] | (1u8 << ((offset % 8) as u8))) as u8)
}

pub open spec fn bm_clear(bm: Seq<u8>, offset: int) -> Seq<u8> {
    bm.update(offset / 8, (bm[offset / 8] & !(1u8 << ((offset % 8) as u8))) as u8)
}

/// One named subnet of the address manager.
pub struct IpamEntry {
    pub name: String,
    pub subnet: SubNet,
}

/// The address manager: the named subnets, one entry per network name.
pub struct Ipam {
    pub entries: Vec<IpamEntry>,
}

pub open spec fn ipam_names(t: Ipam) -> Seq<Seq<char>> {
    t.entries@.map_values(|e: IpamEntry| e.name@)
}

/// The manager's contents as plain values: network name, subnet
/// address, prefix length, allocation bitmap.
pub open spec fn ipam_view(t: Ipam) -> Seq<(Seq<char>, Seq<u8>, u8, Seq<u8>)> {
    t.entries@.map_values(|e: IpamEntry| (e.name@, e.subnet.ip@, e.subnet.mask, e.subnet.bitmap@))
}

/// An entry the allocator can work with: prefix length in range, a
/// bitmap covering the whole pool, and a pool that stays inside the
/// address space.
pub open spec fn entry_usable(e: (Seq<char>, Seq<u8>, u8, Seq<u8>)) -> bool {
    &&& e.2 <= 32
    &&& e.3.len() == (sn_size(e.2) + 7) / 8
    &&& ip_val(e.1) + sn_size(e.2) <= 0x1_0000_0000
}

/// Every address of the entry's pool is marked allocated.
pub open spec fn entry_full(e: (Seq<char>, Seq<u8>, u8, Seq<u8>)) -> bool {
    forall|i: int| 0 <= i < sn_size(e.2) ==> bit_set(e.3, i)
}

/// An entry a release can work with: prefix length in range, a bitmap
/// covering the whole pool, and an address at or above the network
/// address.
pub open spec fn entry_releasable(e: (Seq<char>, Seq<u8>, u8, Seq<u8>), ipv: Seq<u8>) -> bool {
    &&& e.2 <= 32
    &&& e.3.len() == (sn_size(e.2) + 7) / 8
    &&& ip_val(ipv) >= ip_val(e.1)
}

/// One entry per network name.
pub open spec fn ipam_wf(t: Ipam) -> bool {
    forall|k1: int, k2: int|
        0 <= k1 < k2 < ipam_view(t).len() ==> (#[trigger] ipam_view(t)[k1]).0 != (
        #[trigger] ipam_view(t)[k2]).0
}

impl Ipam {
    pub fn new() -> (r: Ipam)
        ensures
            ipam_names(r) =~= Seq::<Seq<char>>::empty(),
            ipam_view(r) =~= Seq::<(Seq<char>, Seq<u8>, u8, Seq<u8>)>::empty(),
            ipam_wf(r),
    {
        let r = Ipam { entries: Vec::new() };
        proof {
            assert(ipam_names(r) =~= Seq::<Seq<char>>::empty());
            assert(ipam_view(r) =~= Seq::<(Seq<char>, Seq<u8>, u8, Seq<u8>)>::empty());
        }
        r
    }

    fn find(&self, name: &str) -> (r: Option<usize>)
        ensures
            match r {
                Some(k) => k < self.entries@.len() && self.entries@[k as int].name@ == name@,
                None => forall|k: int|
                    0 <= k < self.entries@.len() ==> (#[trigger] self.entries@[k]).name@ != name@,
            },
    {
        let mut k: usize = 0;
        while k < self.entries.len()
            invariant
                k <= self.entries@.len(),
                forall|j: int|
                    0 <= j < k ==> (#[trigger] self.entries@[j]).name@ != name@,
            decreases self.entries@.len() - k,
        {
            if str_eq(self.entries[k].name.as_str(), name) {
                return Some(k);
            }
            k = k + 1;
        }
        None
    }
}

/// Record the subnet a network was created with: an earlier subnet of
/// the same name is replaced in place, any other name gets a fresh
/// entry at the end; no other entry moves or changes.
pub fn register_network_subnet(t: &mut Ipam, name: &str, subnet: SubNet)
    requires
        ipam_wf(*old(t)),
    ensures
        ipam_wf(*final(t)),
        ({
            let pre = ipam_view(*old(t));
            let post = ipam_view(*final(t));
            let entry = (name@, subnet.ip@, subnet.mask, subnet.bitmap@);
            if exists|k: int| 0 <= k < pre.len() && (#[trigger] pre[k]).0 == name@ {
                exists|k: int|
                    0 <= k < pre.len() && (#[trigger] pre[k]).0 == name@ && post == pre.update(
                        k,
                        entry,
                    )
            } else {
                post == pre.push(entry)
            }
        }),
{
    let ghost pre = ipam_view(*t);
    let ghost entry = (name@, subnet.ip@, subnet.mask, subnet.bitmap@);
    match t.find(name) {
        Some(k) => {
            proof {
                assert(pre[k as int].0 == name@) by {
                    assert(pre[k as int] == (
                        old(t).entries@[k as int].name@,
                        old(t).entries@[k as int].subnet.ip@,
                        old(t).entries@[k as int].subnet.mask,
                        old(t).entries@[k as int].subnet.bitmap@,
                    ));
                }
            }
            let mut e = t.entries.remove(k);
            e.subnet = subnet;
            t.entries.insert(k, e);
            proof {
                assert(ipam_view(*t) =~= pre.update(k as int, entry));
                assert forall|k1: int, k2: int|
                    0 <= k1 < k2 < ipam_view(*t).len() implies (#[trigger] ipam_view(*t)[k1]).0
                    != (#[trigger] ipam_view(*t)[k2]).0 by {
                    assert(ipam_view(*t)[k1].0 == pre[k1].0);
                    assert(ipam_view(*t)[k2].0 == pre[k2].0);
                }
            }
        },
        None => {
            t.entries.push(IpamEntry { name: String::from_str(name), subnet });
            proof {
                assert(ipam_view(*t) =~= pre.push(entry));
                assert forall|k1: int, k2: int|
                    0 <= k1 < k2 < ipam_view(*t).len() implies (#[trigger] ipam_view(*t)[k1]).0
                    != (#[trigger] ipam_view(*t)[k2]).0 by {
                    if k2 == pre.len() {
                        assert(ipam_view(*t)[k1].0 == pre[k1].0);
                        assert(ipam_view(*t)[k2].0 == name@);
                    } else {
                        assert(ipam_view(*t)[k1].0 == pre[k1].0);
                        assert(ipam_view(*t)[k2].0 == pre[k2].0);
                    }
                }
            }
        },
    }
}

/// Hand out the lowest free address of the named network's subnet:
/// the network address plus the first unset bit's index, that bit now
/// set; nothing when the network is unknown, its entry unusable, or
/// its pool exhausted — and then nothing changes at all.
pub fn allocate_ip(t: &mut Ipam, network: &str) -> (r: Option<([u8; 4], u8)>)
    requires
        ipam_wf(*old(t)),
    ensures
        ipam_wf(*final(t)),
        match r {
            Some(ipp) => exists|k: int, i: int|
                {
                    &&& 0 <= k < ipam_view(*old(t)).len()
                    &&& (#[trigger] ipam_view(*old(t))[k]).0 == network@
                    &&& ipp.1 == ipam_view(*old(t))[k].2
                    &&& 0 <= i < sn_size(ipam_view(*old(t))[k].2)
                    &&& !(#[trigger] bit_set(ipam_view(*old(t))[k].3, i))
                    &&& (forall|j: int| 0 <= j < i ==> bit_set(ipam_view(*old(t))[k].3, j))
                    &&& ip_val(ipp.0@) == ip_val(ipam_view(*old(t))[k].1) + i
                    &&& ipam_view(*final(t)) == ipam_view(*old(t)).update(
                        k,
                        (
                            ipam_view(*old(t))[k].0,
                            ipam_view(*old(t))[k].1,
                            ipam_view(*old(t))[k].2,
                            bm_set(ipam_view(*old(t))[k].3, i),
                        ),
                    )
                },
            None => ipam_view(*final(t)) == ipam_view(*old(t)) && ((forall|k: int|
                0 <= k < ipam_view(*old(t)).len() ==> (#[trigger] ipam_view(*old(t))[k]).0
                    != network@) || exists|k: int|
                0 <= k < ipam_view(*old(t)).len() && (#[trigger] ipam_view(*old(t))[k]).0
                    == network@ && (!entry_usable(ipam_view(*old(t))[k]) || entry_full(
                    ipam_view(*old(t))[k],
                ))),
        },
{
    let ghost pre = ipam_view(*t);
    let k = match t.find(network) {
        Some(k) => k,
        None => {
            proof {
                assert forall|j: int|
                    0 <= j < pre.len() implies (#[trigger] pre[j]).0 != network@ by {
                    assert(pre[j] == (
                        t.entries@[j].name@,
                        t.entries@[j].subnet.ip@,
                        t.entries@[j].subnet.mask,
                        t.entries@[j].subnet.bitmap@,
                    ));
                }
            }
            return None;
        },
    };
    let mut e = t.entries.remove(k);
    let ghost ev = (e.name@, e.subnet.ip@, e.subnet.mask, e.subnet.bitmap@);
    proof {
        assert(pre[k as int] == ev);
    }
    if e.subnet.mask > 32 {
        t.entries.insert(k, e);
        proof {
            assert(ipam_view(*t) =~= pre);
            assert(!entry_usable(pre[k as int]));
        }
        return None;
    }
    let size: u64 = 1u64 << ((32 - e.subnet.mask) as u64);
    proof {
        let sh = (32 - e.subnet.mask) as u64;
        assert(1 <= size <= 0x1_0000_0000u64) by (bit_vector)
            requires
                size == 1u64 << sh,
                sh <= 32,
        ;
    }
    if !(e.subnet.bitmap.len() as u64 == (size + 7) / 8 && (ip_value_of(&e.subnet.ip) as u64)
        + size <= 0x1_0000_0000u64) {
        t.entries.insert(k, e);
        proof {
            assert(ipam_view(*t) =~= pre);
            assert(!entry_usable(pre[k as int]));
        }
        return None;
    }
    proof {
        assert(entry_usable(pre[k as int]));
    }
    let prefix = e.subnet.mask;
    let ip = e.subnet.allocate_ip();
    let ghost ev2 = (e.name@, e.subnet.ip@, e.subnet.mask, e.subnet.bitmap@);
    t.entries.insert(k, e);
    proof {
        assert(ipam_view(*t) =~= pre.update(k as int, ev2));
        if ip is None {
            assert(ev2 == pre[k as int]);
            assert(ipam_view(*t) =~= pre);
            assert(entry_full(pre[k as int]));
        } else {
            let addr = ip->Some_0;
            let i0 = choose|i: int|
                0 <= i < sn_size(ev.2) && !bit_set(ev.3, i) && (forall|j: int|
                    0 <= j < i ==> bit_set(ev.3, j)) && ev2.3 == ev.3.update(
                    i / 8,
                    (ev.3[i / 8] | (1u8 << ((i % 8) as u8))) as u8,
                ) && ip_val(addr@) == ip_val(ev.1) + i;
            assert(bm_set(ev.3, i0) == ev2.3);
            assert(!bit_set(ipam_view(*old(t))[k as int].3, i0));
            assert(ipam_view(*t) == pre.update(
                k as int,
                (pre[k as int].0, pre[k as int].1, pre[k as int].2, bm_set(pre[k as int].3, i0)),
            ));
        }
        assert forall|k1: int, k2: int|
            0 <= k1 < k2 < ipam_view(*t).len() implies (#[trigger] ipam_view(*t)[k1]).0 != (
            #[trigger] ipam_view(*t)[k2]).0 by {
            assert(ipam_view(*t)[k1].0 == pre[k1].0);
            assert(ipam_view(*t)[k2].0 == pre[k2].0);
        }
    }
    match ip {
        Some(addr) => Some((addr, prefix)),
        None => None,
    }
}

/// Return an address to the named network's pool: the bit of its
/// offset is cleared.  An unknown network, or an entry the release
/// cannot work with, leaves everything exactly as it was.
pub fn release_ip(t: &mut Ipam, network: &str, ip: [u8; 4])
    requires
        ipam_wf(*old(t)),
    ensures
        ipam_wf(*final(t)),
        (forall|k: int|
            0 <= k < ipam_view(*old(t)).len() ==> (#[trigger] ipam_view(*old(t))[k]).0
                != network@) ==> ipam_view(*final(t)) == ipam_view(*old(t)),
        (exists|k: int|
            0 <= k < ipam_view(*old(t)).len() && (#[trigger] ipam_view(*old(t))[k]).0
                == network@) ==> exists|k: int|
            {
                &&& 0 <= k < ipam_view(*old(t)).len()
                &&& (#[trigger] ipam_view(*old(t))[k]).0 == network@
                &&& if entry_releasable(ipam_view(*old(t))[k], ip@) {
                    ipam_view(*final(t)) == ipam_view(*old(t)).update(
                        k,
                        (
                            ipam_view(*old(t))[k].0,
                            ipam_view(*old(t))[k].1,
                            ipam_view(*old(t))[k].2,
                            bm_clear(
                                ipam_view(*old(t))[k].3,
                                (ip_val(ip@) - ip_val(ipam_view(*old(t))[k].1)) % sn_size(
                                    ipam_view(*old(t))[k].2,
                                ),
                            ),
                        ),
                    )
                } else {
                    ipam_view(*final(t)) == ipam_view(*old(t))
                }
            },
{
    let ghost pre = ipam_view(*t);
    let k = match t.find(network) {
        Some(k) => k,
        None => {
            proof {
                assert forall|j: int|
                    0 <= j < pre.len() implies (#[trigger] pre[j]).0 != network@ by {
                    assert(pre[j] == (
                        t.entries@[j].name@,
                        t.entries@[j].subnet.ip@,
                        t.entries@[j].subnet.mask,
                        t.entries@[j].subnet.bitmap@,
                    ));
                }
            }
            return ;
        },
    };
    let mut e = t.entries.remove(k);
    let ghost ev = (e.name@, e.subnet.ip@, e.subnet.mask, e.subnet.bitmap@);
    proof {
        assert(pre[k as int] == ev);
    }
    if e.subnet.mask > 32 {
        t.entries.insert(k, e);
        proof {
            assert(ipam_view(*t) =~= pre);
            assert(!entry_releasable(pre[k as int], ip@));
        }
        return ;
    }
    let size: u64 = 1u64 << ((32 - e.subnet.mask) as u64);
    proof {
        let sh = (32 - e.subnet.mask) as u64;
        assert(1 <= size <= 0x1_0000_0000u64) by (bit_vector)
            requires
                size == 1u64 << sh,
                sh <= 32,
        ;
    }
    let usable = e.subnet.bitmap.len() as u64 == (size + 7) / 8 && ip_value_of(&ip)
        >= ip_value_of(&e.subnet.ip);
    proof {
        assert(usable == entry_releasable(pre[k as int], ip@));
    }
    if usable {
        e.subnet.release_ip(ip);
    }
    let ghost ev2 = (e.name@, e.subnet.ip@, e.subnet.mask, e.subnet.bitmap@);
    t.entries.insert(k, e);
    proof {
        assert(ipam_view(*t) =~= pre.update(k as int, ev2));
        if !usable {
            assert(ev2 == pre[k as int]);
            assert(ipam_view(*t) =~= pre);
        }
        assert forall|k1: int, k2: int|
            0 <= k1 < k2 < ipam_view(*t).len() implies (#[trigger] ipam_view(*t)[k1]).0 != (
            #[trigger] ipam_view(*t)[k2]).0 by {
            assert(ipam_view(*t)[k1].0 == pre[k1].0);
            assert(ipam_view(*t)[k2].0 == pre[k2].0);
        }
    }
}

/// Numeric value of an address, most significant byte first.
pub fn ip_value_of(ip: &[u8; 4]) -> (r: u32)
    ensures
        r as int == ip_val(ip@),
{
    (ip[0] as u32) * 0x1000000 + (ip[1] as u32) * 0x10000 + (ip[2] as u32) * 0x100 + (
    ip[3] as u32)
}

/// The four bytes of an address value, most significant first.
pub open spec fn ip_bytes(v: int) -> Seq<u8> {
    seq![
        (v / 0x1000000) as u8,
        ((v / 0x10000) % 256) as u8,
        ((v / 0x100) % 256) as u8,
        (v % 256) as u8,
    ]
}

/// The four bytes recompose to the value they came from.
pub proof fn lemma_ip_bytes_val(v: int)
    requires
        0 <= v < 0x1_0000_0000,
    ensures
        ip_val(ip_bytes(v)) == v,
{
    let b = ip_bytes(v);
    assert(b[0] == (v / 0x1000000) as u8 && b[1] == ((v / 0x10000) % 256) as u8 && b[2] == ((v
        / 0x100) % 256) as u8 && b[3] == (v % 256) as u8);
    assert((v / 0x1000000) * 0x1000000 + ((v / 0x10000) % 256) * 0x10000 + ((v / 0x100) % 256)
        * 0x100 + (v % 256) == v) by (nonlinear_arith)
        requires
            0 <= v < 0x1_0000_0000,
    ;
}

fn u32_to_ip(v: u32) -> (r: [u8; 4])
    ensures
        r@ == ip_bytes(v as int),
        ip_val(r@) == v as int,
{
    let b0 = (v / 0x1000000) as u8;
    let b1 = ((v / 0x10000) % 256) as u8;
    let b2 = ((v / 0x100) % 256) as u8;
    let b3 = (v % 256) as u8;
    let r: [u8; 4] = [b0, b1, b2, b3];
    proof {
        assert(r@ =~= ip_bytes(v as int));
        lemma_ip_bytes_val(v as int);
    }
    r
}

impl SubNet {
    /// Hand out the lowest free address: the first unset bit of the
    /// bitmap is set and the network address plus that index is
    /// returned; a full pool yields nothing and stays as it is.
    pub fn allocate_ip(&mut self) -> (r: Option<[u8; 4]>)
        requires
            old(self).wf(),
            old(self).in_range(),
        ensures
            final(self).wf(),
            final(self).ip == old(self).ip,
            final(self).mask == old(self).mask,
            match r {
                Some(addr) => exists|i: int|
                    {
                        &&& 0 <= i < sn_size(old(self).mask)
                        &&& !bit_set(old(self).bitmap@, i)
                        &&& forall|j: int| 0 <= j < i ==> bit_set(old(self).bitmap@, j)
                        &&& final(self).bitmap@ == old(self).bitmap@.update(
                            i / 8,
                            (old(self).bitmap@[i / 8] | (1u8 << ((i % 8) as u8))) as u8,
                        )
                        &&& ip_val(addr@) == ip_val(old(self).ip@) + i
                    },
                None => final(self).bitmap@ == old(self).bitmap@ && forall|i: int|
                    0 <= i < sn_size(old(self).mask) ==> bit_set(old(self).bitmap@, i),
            },
    {
        let size: u64 = 1u64 << ((32 - self.mask) as u64);
        let base = ip_value_of(&self.ip);
        let ghost basev = ip_val(self.ip@);
        let mut i: u64 = 0;
        while i < size
            invariant
                self == old(self),
                size as int == sn_size(self.mask),
                self.wf(),
                self.in_range(),
                base as int == ip_val(self.ip@),
                i <= size,
                forall|j: int| 0 <= j < i ==> bit_set(self.bitmap@, j),
            decreases size - i,
        {
            let byte_index = (i / 8) as usize;
            proof {
                assert(i / 8 < self.bitmap@.len());
            }
            let byte = self.bitmap[byte_index];
            let sh8: u8 = (i % 8) as u8;
            let bit: u8 = 1u8 << sh8;
            proof {
                assert(byte == self.bitmap@[i as int / 8]);
                assert(sh8 == ((i as int) % 8) as u8);
            }
            if byte & bit == 0 {
                proof {
                    assert(!bit_set(self.bitmap@, i as int));
                }
                let updated = byte | bit;
                let _old_byte = self.bitmap.remove(byte_index);
                self.bitmap.insert(byte_index, updated);
                proof {
                    assert(self.bitmap@ =~= old(self).bitmap@.update(
                        i as int / 8,
                        (old(self).bitmap@[i as int / 8] | (1u8 << (((i as int) % 8) as u8))) as u8,
                    ));
                }
                let addr_val: u64 = (base as u64) + i;
                proof {
                    assert(addr_val < 0x1_0000_0000);
                }
                let addr = u32_to_ip(addr_val as u32);
                proof {
                    assert(ip_val(addr@) == ip_val(old(self).ip@) + i);
                }
                return Some(addr);
            }
            proof {
                assert(bit_set(self.bitmap@, i as int));
            }
            i = i + 1;
        }
        None
    }

    /// Return an address to the pool: the bit of its offset from the
    /// network address (modulo the pool size) is cleared.
    pub fn release_ip(&mut self, ip: [u8; 4])
        requires
            old(self).wf(),
            ip_val(ip@) >= ip_val(old(self).ip@),
        ensures
            final(self).wf(),
            final(self).ip == old(self).ip,
            final(self).mask == old(self).mask,
            final(self).bitmap@ == old(self).bitmap@.update(
                ((ip_val(ip@) - ip_val(old(self).ip@)) % sn_size(old(self).mask)) / 8,
                (old(self).bitmap@[((ip_val(ip@) - ip_val(old(self).ip@)) % sn_size(
                    old(self).mask,
                )) / 8] & !(1u8 << ((((ip_val(ip@) - ip_val(old(self).ip@)) % sn_size(
                    old(self).mask,
                )) % 8) as u8))) as u8,
            ),
    {
        let size: u64 = 1u64 << ((32 - self.mask) as u64);
        proof {
            let sh = (32 - self.mask) as u64;
            assert(1 <= size <= 0x1_0000_0000u64) by (bit_vector)
                requires
                    size == 1u64 << sh,
                    sh <= 32,
            ;
            assert(size as int == sn_size(self.mask));
        }
        let here = ip_value_of(&ip);
        let base = ip_value_of(&self.ip);
        let diff: u64 = (here - base) as u64;
        let index: u64 = diff % size;
        proof {
            assert(index as int == (ip_val(ip@) - ip_val(self.ip@)) % sn_size(self.mask));
            assert(index < size);
            assert(index as int / 8 < self.bitmap@.len());
        }
        let byte_index = (index / 8) as usize;
        let byte = self.bitmap[byte_index];
        let sh8: u8 = (index % 8) as u8;
        let mask_bit: u8 = 1u8 << sh8;
        let cleared = byte & !mask_bit;
        let _old_byte = self.bitmap.remove(byte_index);
        self.bitmap.insert(byte_index, cleared);
        proof {
            assert(sh8 == (((ip_val(ip@) - ip_val(old(self).ip@)) % sn_size(old(self).mask)) % 8)
                as u8);
            assert(self.bitmap@ =~= old(self).bitmap@.update(index as int / 8, cleared));
        }
    }
}

} // verus!

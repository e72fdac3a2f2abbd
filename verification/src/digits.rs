use vstd::prelude::*;

verus! {

/// Decimal text: the engine renders numbers (cgroup limits, pids, record
/// fields) as base-10 character sequences and reads them back.  `spec_dec`
/// is the canonical rendering; `dec_val` is the value of any digit run.
pub open spec fn is_digit(c: char) -> bool {
    48 <= c as u32 <= 57
}

pub open spec fn digit_char(d: int) -> char {
    if d == 0 {
        '0'
    } else if d == 1 {
        '1'
    } else if d == 2 {
        '2'
    } else if d == 3 {
        '3'
    } else if d == 4 {
        '4'
    } else if d == 5 {
        '5'
    } else if d == 6 {
        '6'
    } else if d == 7 {
        '7'
    } else if d == 8 {
        '8'
    } else {
        '9'
    }
}

pub open spec fn digit_val(c: char) -> int {
    c as u32 - 48
}

/// Canonical decimal rendering of `n`, most significant digit first.
pub open spec fn spec_dec(n: nat) -> Seq<char>
    decreases n,
{
    if n < 10 {
        seq![digit_char(n as int)]
    } else {
        spec_dec(n / 10).push(digit_char((n % 10) as int))
    }
}

pub open spec fn all_digits(s: Seq<char>) -> bool {
    forall|i: int| 0 <= i < s.len() ==> is_digit(#[trigger] s[i])
}

/// Numeric value of a digit run.
pub open spec fn dec_val(s: Seq<char>) -> int
    decreases s.len(),
{
    if s.len() == 0 {
        0
    } else {
        dec_val(s.drop_last()) * 10 + digit_val(s.last())
    }
}

/// The sequence `t` occurs in `s` starting at position `i`.
pub open spec fn matches_at(s: Seq<char>, i: int, t: Seq<char>) -> bool {
    &&& 0 <= i
    &&& i + t.len() <= s.len()
    &&& s.subrange(i, i + t.len()) == t
}

/// Position `j` of `s` does not continue a digit run.
pub open spec fn digit_boundary(s: Seq<char>, j: int) -> bool {
    j == s.len() || !is_digit(s[j])
}

pub proof fn lemma_spec_dec_digits(n: nat)
    ensures
        spec_dec(n).len() >= 1,
        all_digits(spec_dec(n)),
    decreases n,
{
    if n >= 10 {
        lemma_spec_dec_digits(n / 10);
        assert forall|i: int| 0 <= i < spec_dec(n).len() implies is_digit(#[trigger] spec_dec(n)[i]) by {
            if i < spec_dec(n / 10).len() {
                assert(spec_dec(n)[i] == spec_dec(n / 10)[i]);
            }
        }
    }
}

pub proof fn lemma_dec_val_spec_dec(n: nat)
    ensures
        dec_val(spec_dec(n)) == n,
    decreases n,
{
    if n < 10 {
        assert(spec_dec(n).drop_last() =~= Seq::<char>::empty());
        assert(dec_val(Seq::<char>::empty()) == 0);
        assert(spec_dec(n).last() == digit_char(n as int));
        assert(digit_val(digit_char(n as int)) == n);
    } else {
        lemma_dec_val_spec_dec(n / 10);
        assert(spec_dec(n).drop_last() =~= spec_dec(n / 10));
        assert(spec_dec(n).last() == digit_char((n % 10) as int));
        assert(digit_val(digit_char((n % 10) as int)) == n % 10);
    }
}

pub proof fn lemma_dec_val_nonneg(s: Seq<char>)
    requires
        all_digits(s),
    ensures
        dec_val(s) >= 0,
    decreases s.len(),
{
    if s.len() > 0 {
        lemma_dec_val_nonneg(s.drop_last());
    }
}

/// Extending a digit run can only increase its value.
pub proof fn lemma_dec_val_prefix(s: Seq<char>, k: int)
    requires
        all_digits(s),
        0 <= k <= s.len(),
    ensures
        dec_val(s.subrange(0, k)) <= dec_val(s),
    decreases s.len() - k,
{
    if k == s.len() {
        assert(s.subrange(0, k) =~= s);
    } else {
        lemma_dec_val_prefix(s, k + 1);
        let t = s.subrange(0, k + 1);
        assert(t.drop_last() =~= s.subrange(0, k));
        lemma_dec_val_nonneg(s.subrange(0, k));
    }
}

/// A digit character is recovered from its code point.
pub proof fn lemma_char_code(c: char)
    ensures
        (c as u32) as char == c,
{
}

pub proof fn lemma_digit_char_val(c: char)
    requires
        is_digit(c),
    ensures
        digit_char(digit_val(c)) == c,
{
    lemma_char_code(c);
    if c as u32 == 48 {
        assert(48u32 as char == '0');
    } else if c as u32 == 49 {
        assert(49u32 as char == '1');
    } else if c as u32 == 50 {
        assert(50u32 as char == '2');
    } else if c as u32 == 51 {
        assert(51u32 as char == '3');
    } else if c as u32 == 52 {
        assert(52u32 as char == '4');
    } else if c as u32 == 53 {
        assert(53u32 as char == '5');
    } else if c as u32 == 54 {
        assert(54u32 as char == '6');
    } else if c as u32 == 55 {
        assert(55u32 as char == '7');
    } else if c as u32 == 56 {
        assert(56u32 as char == '8');
    } else {
        assert(57u32 as char == '9');
    }
}

pub proof fn lemma_dec_val_pos(d: Seq<char>)
    requires
        all_digits(d),
        d.len() >= 1,
        d[0] != '0',
    ensures
        dec_val(d) >= 1,
    decreases d.len(),
{
    if d.len() == 1 {
        assert(is_digit(d[0]));
        if d[0] as u32 == 48 {
            lemma_char_code(d[0]);
            assert(48u32 as char == '0');
            assert(d[0] == '0');
        }
        assert(digit_val(d[0]) >= 1);
        assert(d.drop_last() =~= Seq::<char>::empty());
        assert(dec_val(Seq::<char>::empty()) == 0);
        assert(d.last() == d[0]);
    } else {
        let dl = d.drop_last();
        assert(dl[0] == d[0]);
        assert(all_digits(dl)) by {
            assert(forall|i: int| 0 <= i < dl.len() ==> dl[i] == #[trigger] d[i]);
        }
        lemma_dec_val_pos(dl);
        assert(is_digit(d.last()));
    }
}

/// A digit run without a leading zero is the canonical rendering of its
/// own value.
pub proof fn lemma_canonical_digits(d: Seq<char>)
    requires
        all_digits(d),
        d.len() >= 1,
        d.len() == 1 || d[0] != '0',
    ensures
        dec_val(d) >= 0,
        d == spec_dec(dec_val(d) as nat),
    decreases d.len(),
{
    lemma_dec_val_nonneg(d);
    if d.len() == 1 {
        assert(dec_val(d.drop_last()) == 0) by {
            assert(d.drop_last() =~= Seq::<char>::empty());
        }
        assert(dec_val(d) == digit_val(d[0]));
        lemma_digit_char_val(d[0]);
        assert(d =~= spec_dec(dec_val(d) as nat));
    } else {
        let dl = d.drop_last();
        assert(dl[0] == d[0]);
        assert(all_digits(dl)) by {
            assert(forall|i: int| 0 <= i < dl.len() ==> dl[i] == #[trigger] d[i]);
        }
        lemma_canonical_digits(dl);
        lemma_dec_val_pos(dl);
        let v = dec_val(d);
        assert(is_digit(d.last()));
        assert(v == dec_val(dl) * 10 + digit_val(d.last()));
        assert(v / 10 == dec_val(dl) && v % 10 == digit_val(d.last())) by (nonlinear_arith)
            requires
                v == dec_val(dl) * 10 + digit_val(d.last()),
                0 <= digit_val(d.last()) < 10,
                dec_val(dl) >= 0,
        ;
        assert(v >= 10);
        lemma_digit_char_val(d.last());
        assert(spec_dec(v as nat) == spec_dec((v / 10) as nat).push(digit_char(v % 10)));
        assert(d =~= spec_dec(v as nat));
    }
}

/// The canonical rendering never starts with a superfluous zero.
pub proof fn lemma_spec_dec_no_leading_zero(n: nat)
    ensures
        n >= 10 ==> spec_dec(n)[0] != '0',
    decreases n,
{
    if n >= 10 {
        lemma_spec_dec_digits(n / 10);
        assert(spec_dec(n)[0] == spec_dec(n / 10)[0]);
        if n / 10 >= 10 {
            lemma_spec_dec_no_leading_zero(n / 10);
        } else {
            assert(spec_dec(n / 10) == seq![digit_char((n / 10) as int)]);
            assert(1 <= n / 10 <= 9);
        }
    }
}

pub fn digit_to_str(d: u64) -> (r: &'static str)
    requires
        d < 10,
    ensures
        r@ =~= seq![digit_char(d as int)],
{
    proof {
        reveal_strlit("0");
        reveal_strlit("1");
        reveal_strlit("2");
        reveal_strlit("3");
        reveal_strlit("4");
        reveal_strlit("5");
        reveal_strlit("6");
        reveal_strlit("7");
        reveal_strlit("8");
        reveal_strlit("9");
    }
    if d == 0 {
        "0"
    } else if d == 1 {
        "1"
    } else if d == 2 {
        "2"
    } else if d == 3 {
        "3"
    } else if d == 4 {
        "4"
    } else if d == 5 {
        "5"
    } else if d == 6 {
        "6"
    } else if d == 7 {
        "7"
    } else if d == 8 {
        "8"
    } else {
        "9"
    }
}

/// Render `n` in decimal, exactly as `spec_dec` describes.
pub fn u64_to_string(n: u64) -> (r: String)
    ensures
        r@ == spec_dec(n as nat),
    decreases n,
{
    if n < 10 {
        let r = String::from_str(digit_to_str(n));
        proof {
            assert(r@ =~= spec_dec(n as nat));
        }
        r
    } else {
        let mut s = u64_to_string(n / 10);
        s.append(digit_to_str(n % 10));
        proof {
            assert(s@ =~= spec_dec(n as nat));
        }
        s
    }
}

pub fn u32_to_string(n: u32) -> (r: String)
    ensures
        r@ == spec_dec(n as nat),
{
    u64_to_string(n as u64)
}

pub fn char_digit(c: char) -> (r: Option<u64>)
    ensures
        match r {
            Some(d) => is_digit(c) && d == digit_val(c),
            None => !is_digit(c),
        },
{
    let u = c as u32;
    if 48 <= u && u <= 57 {
        Some((u - 48) as u64)
    } else {
        None
    }
}

/// Character-for-character equality of two texts.
pub fn str_eq(a: &str, b: &str) -> (r: bool)
    ensures
        r == (a@ == b@),
{
    let na = a.unicode_len();
    let nb = b.unicode_len();
    if na != nb {
        return false;
    }
    let mut k: usize = 0;
    while k < na
        invariant
            na == a@.len(),
            na == b@.len(),
            k <= na,
            forall|j: int| 0 <= j < k ==> a@[j] == b@[j],
        decreases na - k,
    {
        if a.get_char(k) != b.get_char(k) {
            return false;
        }
        k = k + 1;
    }
    proof {
        assert(a@ =~= b@);
    }
    true
}

/// Read the maximal digit run of `s` starting at `start`.
///
/// Returns the value and the first position after the run; `None` when no
/// digit stands at `start` or the run's value does not fit in a `u64`.  The
/// second `ensures` clause is the completeness direction: a canonically
/// rendered number followed by a non-digit is always read back exactly.
pub fn parse_u64_at(s: &str, n: usize, start: usize) -> (r: Option<(u64, usize)>)
    requires
        n == s@.len(),
        start <= n,
    ensures
        match r {
            Some(v_j) => {
                &&& start < v_j.1 <= n
                &&& all_digits(s@.subrange(start as int, v_j.1 as int))
                &&& v_j.0 as int == dec_val(s@.subrange(start as int, v_j.1 as int))
                &&& digit_boundary(s@, v_j.1 as int)
            },
            None => start == n || !is_digit(s@[start as int]) || exists|k: int|
                start < k <= n && all_digits(s@.subrange(start as int, k)) && dec_val(
                    s@.subrange(start as int, k),
                ) > u64::MAX,
        },
        forall|m: u64|
            #[trigger] matches_at(s@, start as int, spec_dec(m as nat)) && digit_boundary(
                s@,
                start + spec_dec(m as nat).len(),
            ) ==> r == Some::<(u64, usize)>(
                (m, (start + spec_dec(m as nat).len()) as usize),
            ),
{
    let ghost sv = s@;
    let mut i = start;
    let mut acc: u64 = 0;
    let mut overflowed = false;
    let mut done = false;
    let ghost mut over_end: int = 0;
    while i < n && !overflowed && !done
        invariant
            n == sv.len(),
            sv == s@,
            start <= i <= n,
            done ==> i < n && !is_digit(sv[i as int]),
            !overflowed ==> all_digits(sv.subrange(start as int, i as int)) && acc as int
                == dec_val(sv.subrange(start as int, i as int)),
            overflowed ==> start < over_end <= i && all_digits(
                sv.subrange(start as int, over_end),
            ) && dec_val(sv.subrange(start as int, over_end)) > u64::MAX,
        decreases n - i + (if overflowed || done {
            0int
        } else {
            1int
        }),
    {
        let c = s.get_char(i);
        match char_digit(c) {
            None => {
                done = true;
            },
            Some(d) => {
                proof {
                    assert(sv.subrange(start as int, i + 1).drop_last() =~= sv.subrange(
                        start as int,
                        i as int,
                    ));
                    lemma_dec_val_nonneg(sv.subrange(start as int, i as int));
                }
                if acc > (u64::MAX - d) / 10 {
                    proof {
                        over_end = i + 1;
                        assert(acc * 10 + d > u64::MAX) by (nonlinear_arith)
                            requires
                                acc > (u64::MAX - d) / 10,
                                d <= 9,
                        ;
                    }
                    overflowed = true;
                } else {
                    proof {
                        assert(acc * 10 + d <= u64::MAX) by (nonlinear_arith)
                            requires
                                acc <= (u64::MAX - d) / 10,
                                d <= 9,
                        ;
                    }
                    acc = acc * 10 + d;
                }
                i = i + 1;
            },
        }
    }
    let ghost end = i as int;
    let result: Option<(u64, usize)> = if overflowed || i == start {
        None
    } else {
        Some((acc, i))
    };
    proof {
        if overflowed {
            assert(start < over_end <= n && all_digits(sv.subrange(start as int, over_end))
                && dec_val(sv.subrange(start as int, over_end)) > u64::MAX);
        } else if i == start && i < n {
            assert(done);
        }
        assert forall|m: u64|
            #[trigger] matches_at(sv, start as int, spec_dec(m as nat)) && digit_boundary(
                sv,
                start + spec_dec(m as nat).len(),
            ) implies result == Some::<(u64, usize)>(
            (m, (start + spec_dec(m as nat).len()) as usize),
        ) by {
            let mlen = spec_dec(m as nat).len() as int;
            lemma_spec_dec_digits(m as nat);
            lemma_dec_val_spec_dec(m as nat);
            assert(sv.subrange(start as int, start + mlen) == spec_dec(m as nat));
            assert forall|k: int| start <= k < start + mlen implies is_digit(#[trigger] sv[k]) by {
                assert(sv[k] == spec_dec(m as nat)[k - start]);
            }
            if overflowed {
                // The run the loop overflowed on lies inside the rendered
                // number, whose value nevertheless fits in a u64.
                if over_end > start + mlen {
                    assert(is_digit(sv.subrange(start as int, over_end)[mlen]));
                    assert(sv.subrange(start as int, over_end)[mlen] == sv[start + mlen]);
                    assert(false);
                }
                let run = sv.subrange(start as int, start + mlen);
                assert(run.subrange(0, over_end - start) =~= sv.subrange(start as int, over_end));
                lemma_dec_val_prefix(run, over_end - start);
                assert(dec_val(run) == m as int);
                assert(false);
            } else {
                if end < start + mlen {
                    // the loop stopped early, yet it only stops on a
                    // non-digit or at the end of the text
                    assert(is_digit(sv[end]));
                    assert(end < sv.len());
                    assert(done);
                    assert(false);
                }
                if end > start + mlen {
                    assert(all_digits(sv.subrange(start as int, end)));
                    assert(is_digit(sv.subrange(start as int, end)[start + mlen - start]));
                    assert(is_digit(sv[start + mlen]));
                    assert(false);
                }
                assert(sv.subrange(start as int, end) == spec_dec(m as nat));
                assert(acc as int == m as int);
            }
        }
    }
    result
}

} // verus!

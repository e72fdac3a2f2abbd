use vstd::prelude::*;
use crate::FileWrite;
use crate::cgroupsv2::manager::{CGroupIf, LimitError, ResourceConfig};
use crate::digits::{all_digits, dec_val, is_digit, lemma_dec_val_prefix, parse_u64_at, u64_to_string};
use crate::paths::{memory_max_path, memory_max_path_spec};

verus! {

/// The memory controller: turns a human-readable size string with a
/// k/K, m/M or g/G unit suffix into a byte count and plans the write of
/// that count to the per-container memory limit file.
pub struct CGroupMemory {}

pub open spec fn is_unit_char(c: char, lo: char, up: char) -> bool {
    c == lo || c == up
}

/// The size string with every trailing occurrence of the unit letter
/// removed.
pub open spec fn strip_unit(s: Seq<char>, lo: char, up: char) -> Seq<char>
    decreases s.len(),
{
    if s.len() > 0 && is_unit_char(s.last(), lo, up) {
        strip_unit(s.drop_last(), lo, up)
    } else {
        s
    }
}

/// Byte count of a number body under a unit multiplier: an optional
/// leading plus sign and a nonempty digit run, exactly as the store's
/// number reading takes it; rejected when what remains is no such
/// number or the product does not fit in a u64.
pub open spec fn mem_body_value(body: Seq<char>, mult: u64) -> Option<u64> {
    let digits = if body.len() >= 1 && body[0] == '+' {
        body.subrange(1, body.len() as int)
    } else {
        body
    };
    if digits.len() > 0 && all_digits(digits) && dec_val(digits) * mult <= u64::MAX {
        Some((dec_val(digits) * mult) as u64)
    } else {
        None
    }
}

/// The meaning of a memory limit string: the unit is the last letter
/// (g/G for 1024^3, m/M for 1024^2, k/K for 1024), the number before it
/// gives the count.  A string without a recognized unit suffix is
/// invalid.
pub open spec fn mem_size_spec(s: Seq<char>) -> Option<u64> {
    if s.len() == 0 {
        None
    } else if is_unit_char(s.last(), 'g', 'G') {
        mem_body_value(strip_unit(s, 'g', 'G'), 1073741824)
    } else if is_unit_char(s.last(), 'm', 'M') {
        mem_body_value(strip_unit(s, 'm', 'M'), 1048576)
    } else if is_unit_char(s.last(), 'k', 'K') {
        mem_body_value(strip_unit(s, 'k', 'K'), 1024)
    } else {
        None
    }
}

proof fn lemma_strip_unit_subrange(s: Seq<char>, lo: char, up: char, j: int)
    requires
        0 <= j <= s.len(),
        forall|k: int| j <= k < s.len() ==> is_unit_char(#[trigger] s[k], lo, up),
        j == 0 || !is_unit_char(s[j - 1], lo, up),
    ensures
        strip_unit(s, lo, up) == s.subrange(0, j),
    decreases s.len(),
{
    if j == s.len() {
        assert(s.subrange(0, j) =~= s);
    } else {
        assert(is_unit_char(s.last(), lo, up));
        lemma_strip_unit_subrange(s.drop_last(), lo, up, j);
        assert(s.drop_last().subrange(0, j) =~= s.subrange(0, j));
    }
}

/// Parse a memory limit string; exactly the strings `mem_size_spec`
/// accepts yield a byte count.
pub fn parse_mem_size(s: &str) -> (r: Option<u64>)
    ensures
        r == mem_size_spec(s@),
{
    let n = s.unicode_len();
    if n == 0 {
        return None;
    }
    let last = s.get_char(n - 1);
    let lo: char;
    let up: char;
    let mult: u64;
    if last == 'g' || last == 'G' {
        lo = 'g';
        up = 'G';
        mult = 1073741824;
    } else if last == 'm' || last == 'M' {
        lo = 'm';
        up = 'M';
        mult = 1048576;
    } else if last == 'k' || last == 'K' {
        lo = 'k';
        up = 'K';
        mult = 1024;
    } else {
        return None;
    }
    let mut j = n;
    let mut stop = false;
    while j > 0 && !stop
        invariant
            j <= n,
            n == s@.len(),
            forall|k: int| j <= k < n ==> is_unit_char(#[trigger] s@[k], lo, up),
            stop ==> j > 0 && !is_unit_char(s@[j - 1], lo, up),
        decreases j + (if stop {
            0int
        } else {
            1int
        }),
    {
        let c = s.get_char(j - 1);
        if c == lo || c == up {
            j = j - 1;
        } else {
            stop = true;
        }
    }
    proof {
        lemma_strip_unit_subrange(s@, lo, up, j as int);
    }
    let ghost body = s@.subrange(0, j as int);
    proof {
        // the unit letters are not digits, so no digit run crosses `j`
        assert(j < n && is_unit_char(s@[j as int], lo, up) ==> !is_digit(s@[j as int]));
    }
    let mut dstart: usize = 0;
    if j > 0 {
        if s.get_char(0) == '+' {
            dstart = 1;
        }
    }
    let ghost digits = if body.len() >= 1 && body[0] == '+' {
        body.subrange(1, body.len() as int)
    } else {
        body
    };
    proof {
        if j > 0 {
            assert(body[0] == s@[0]);
        }
        if dstart == 1 {
            assert(digits =~= s@.subrange(1, j as int));
        }
        assert(forall|x: int| 0 <= x < digits.len() ==> digits[x] == s@[dstart + x]);
    }
    if dstart >= j {
        // an empty body, or a sign alone before the unit letters
        return None;
    }
    match parse_u64_at(s, n, dstart) {
        None => {
            proof {
                if digits.len() > 0 && all_digits(digits) {
                    assert(digits[0] == s@[dstart as int]);
                    assert(is_digit(s@[dstart as int]));
                    let k = choose|k: int|
                        dstart < k <= n && all_digits(s@.subrange(dstart as int, k)) && dec_val(
                            s@.subrange(dstart as int, k),
                        ) > u64::MAX;
                    if k > j {
                        assert(is_digit(s@.subrange(dstart as int, k)[j - dstart]));
                        assert(is_unit_char(s@[j as int], lo, up));
                        assert(false);
                    }
                    assert(digits.subrange(0, k - dstart) =~= s@.subrange(dstart as int, k));
                    lemma_dec_val_prefix(digits, k - dstart);
                }
            }
            None
        },
        Some((v, e)) => {
            if e != j {
                proof {
                    if e < j {
                        assert(!is_digit(digits[e - dstart]));
                    } else {
                        assert(is_digit(s@.subrange(dstart as int, e as int)[j - dstart]));
                        assert(is_unit_char(s@[j as int], lo, up));
                    }
                }
                return None;
            }
            proof {
                assert(digits =~= s@.subrange(dstart as int, e as int));
            }
            if v <= u64::MAX / mult {
                proof {
                    assert(v * mult <= u64::MAX) by (nonlinear_arith)
                        requires
                            v <= u64::MAX / mult,
                            mult >= 1,
                    ;
                }
                Some(v * mult)
            } else {
                proof {
                    assert(v * mult > u64::MAX) by (nonlinear_arith)
                        requires
                            v > u64::MAX / mult,
                            mult >= 1,
                    ;
                }
                None
            }
        },
    }
}

impl CGroupMemory {
    pub fn new() -> Self {
        CGroupMemory {  }
    }

    /// The planned write of the parsed byte count to the memory limit
    /// file of container `id`; invalid size strings are refused.
    pub fn memory_limit_write(id: &str, mem: &str) -> (r: Result<FileWrite, LimitError>)
        ensures
            match r {
                Ok(w) => {
                    &&& mem_size_spec(mem@) is Some
                    &&& w@.path == memory_max_path_spec(id@)
                    &&& w@.contents == crate::digits::spec_dec(mem_size_spec(mem@)->Some_0 as nat)
                },
                Err(e) => mem_size_spec(mem@) is None && e == LimitError::InvalidMemoryLimit,
            },
    {
        match parse_mem_size(mem) {
            None => Err(LimitError::InvalidMemoryLimit),
            Some(bytes) => Ok(
                FileWrite { path: memory_max_path(id), contents: u64_to_string(bytes) },
            ),
        }
    }
}

impl CGroupIf for CGroupMemory {
    /// An absent memory limit plans no write; a present one plans the
    /// memory limit write or reports the format error.
    fn set(&self, path: &String, resource_config: &ResourceConfig) -> (r: Result<
        Option<FileWrite>,
        LimitError,
    >)
        ensures
            match resource_config.memory {
                None => r == Ok::<Option<FileWrite>, LimitError>(None),
                Some(ref m) => match r {
                    Ok(Some(w)) => mem_size_spec(m@) is Some && w@.path == memory_max_path_spec(
                        path@,
                    ) && w@.contents == crate::digits::spec_dec(mem_size_spec(m@)->Some_0 as nat),
                    Ok(None) => false,
                    Err(e) => mem_size_spec(m@) is None && e == LimitError::InvalidMemoryLimit,
                },
            },
    {
        match &resource_config.memory {
            None => Ok(None),
            Some(m) => match CGroupMemory::memory_limit_write(path.as_str(), m.as_str()) {
                Ok(w) => Ok(Some(w)),
                Err(e) => Err(e),
            },
        }
    }
}

} // verus!

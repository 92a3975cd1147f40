//! Segment file names: `<gen>.log`, with `gen` a decimal number.
use vstd::prelude::*;
use vstd::string::StrSliceExecFns;

verus! {

/// `c` is a decimal digit.
pub open spec fn is_digit(c: char) -> bool {
    '0' <= c && c <= '9'
}

/// The number that a string of decimal digits spells.
pub open spec fn decimal_value(s: Seq<char>) -> nat
    decreases s.len(),
{
    if s.len() == 0 {
        0
    } else {
        decimal_value(s.drop_last()) * 10 + ((s.last() as u32) - ('0' as u32)) as nat
    }
}

/// The generation that a file name stands for, if it names a segment.
pub open spec fn log_gen(name: Seq<char>) -> Option<u64> {
    let n = name.len();
    if n > 4 && name.subrange(n - 4, n as int) == seq!['.', 'l', 'o', 'g'] && (forall|i: int|
        0 <= i < n - 4 ==> is_digit(#[trigger] name[i])) && decimal_value(name.subrange(0, n - 4))
        <= u64::MAX {
        Some(decimal_value(name.subrange(0, n - 4)) as u64)
    } else {
        None
    }
}

/// Some name of the listing stands for generation `g`.
pub open spec fn names_gen(names: Seq<String>, g: u64) -> bool {
    exists|t: int| 0 <= t < names.len() && log_gen(names[t]@) == Some(g)
}

/// A longer run of digits spells a number no smaller.
proof fn lemma_decimal_monotone(s: Seq<char>, i: int, j: int)
    requires
        0 <= i <= j <= s.len(),
        forall|t: int| 0 <= t < s.len() ==> is_digit(#[trigger] s[t]),
    ensures
        decimal_value(s.subrange(0, i)) <= decimal_value(s.subrange(0, j)),
    decreases j - i,
{
    if i < j {
        lemma_decimal_monotone(s, i, j - 1);
        assert(s.subrange(0, j).drop_last() =~= s.subrange(0, j - 1));
    }
}

/// The generation of segment file `name`, or `None` if it names no segment.
pub fn parse_log_name(name: &str) -> (r: Option<u64>)
    ensures
        r == log_gen(name@),
{
    let n = name.unicode_len();
    if n <= 4 {
        return None;
    }
    if name.get_char(n - 4) != '.' || name.get_char(n - 3) != 'l' || name.get_char(n - 2) != 'o'
        || name.get_char(n - 1) != 'g' {
        proof {
            if name@.subrange(n - 4, n as int) == seq!['.', 'l', 'o', 'g'] {
                assert(name@.subrange(n - 4, n as int)[0] == name@[n - 4]);
                assert(name@.subrange(n - 4, n as int)[1] == name@[n - 3]);
                assert(name@.subrange(n - 4, n as int)[2] == name@[n - 2]);
                assert(name@.subrange(n - 4, n as int)[3] == name@[n - 1]);
            }
        }
        return None;
    }
    assert(name@.subrange(n - 4, n as int) =~= seq!['.', 'l', 'o', 'g']);
    let ghost stem = name@.subrange(0, n - 4);
    let stem_len = n - 4;
    let mut v: u64 = 0;
    let mut i: usize = 0;
    assert(stem.subrange(0, 0) =~= Seq::<char>::empty());
    while i < stem_len
        invariant
            stem_len == n - 4,
            n == name@.len(),
            stem == name@.subrange(0, stem_len as int),
            i <= stem_len,
            v == decimal_value(stem.subrange(0, i as int)),
            forall|t: int| 0 <= t < i ==> is_digit(#[trigger] stem[t]),
            name@.subrange(n - 4, n as int) == seq!['.', 'l', 'o', 'g'],
        decreases stem_len - i,
    {
        let c = name.get_char(i);
        if !('0' <= c && c <= '9') {
            return None;
        }
        let d = (c as u32 - '0' as u32) as u64;
        assert(stem.subrange(0, i + 1).drop_last() =~= stem.subrange(0, i as int));
        let next = match v.checked_mul(10) {
            Some(x) => x.checked_add(d),
            None => None,
        };
        match next {
            Some(y) => {
                v = y;
            },
            None => {
                proof {
                    if forall|t: int| 0 <= t < stem.len() ==> is_digit(#[trigger] stem[t]) {
                        lemma_decimal_monotone(stem, i + 1, stem.len() as int);
                        assert(stem.subrange(0, stem.len() as int) =~= stem);
                    }
                }
                return None;
            },
        }
        i = i + 1;
    }
    assert(stem.subrange(0, stem_len as int) =~= stem);
    assert forall|t: int| 0 <= t < n - 4 implies is_digit(#[trigger] name@[t]) by {
        assert(stem[t] == name@[t]);
    }
    Some(v)
}

/// The generations of the segments among the file names of a directory,
/// each once, in ascending order.
pub fn segment_gens(names: &Vec<String>) -> (r: Vec<u64>)
    ensures
        forall|i: int, j: int| 0 <= i < j < r@.len() ==> r@[i] < r@[j],
        forall|i: int| 0 <= i < r@.len() ==> names_gen(names@, #[trigger] r@[i]),
        forall|j: int|
            0 <= j < names@.len() && (#[trigger] log_gen(names@[j]@)) is Some ==> r@.contains(
                log_gen(names@[j]@)->0,
            ),
{
    let mut r: Vec<u64> = Vec::new();
    let mut j: usize = 0;
    while j < names.len()
        invariant
            j <= names@.len(),
            forall|a: int, b: int| 0 <= a < b < r@.len() ==> r@[a] < r@[b],
            forall|a: int| 0 <= a < r@.len() ==> names_gen(names@, #[trigger] r@[a]),
            forall|t: int|
                0 <= t < j && (#[trigger] log_gen(names@[t]@)) is Some ==> r@.contains(
                    log_gen(names@[t]@)->0,
                ),
        decreases names@.len() - j,
    {
        match parse_log_name(names[j].as_str()) {
            Some(g) => {
                let mut p: usize = 0;
                while p < r.len() && r[p] < g
                    invariant
                        p <= r@.len(),
                        forall|a: int| 0 <= a < p ==> r@[a] < g,
                    decreases r@.len() - p,
                {
                    p = p + 1;
                }
                if p == r.len() || r[p] != g {
                    let ghost old_r = r@;
                    r.insert(p, g);
                    proof {
                        assert(r@ =~= old_r.insert(p as int, g));
                        assert forall|a: int| 0 <= a < r@.len() implies names_gen(names@, #[trigger] r@[a]) by {
                            if a < p {
                                assert(r@[a] == old_r[a]);
                            } else if a > p {
                                assert(r@[a] == old_r[a - 1]);
                            } else {
                                assert(log_gen(names@[j as int]@) == Some(r@[a]));
                            }
                        }
                        assert forall|t: int|
                            0 <= t < j + 1 && (#[trigger] log_gen(names@[t]@)) is Some implies r@.contains(
                            log_gen(names@[t]@)->0,
                        ) by {
                            if t < j {
                                let a = choose|a: int| 0 <= a < old_r.len() && old_r[a] == log_gen(names@[t]@)->0;
                                if a < p {
                                    assert(r@[a] == old_r[a]);
                                } else {
                                    assert(r@[a + 1] == old_r[a]);
                                }
                            } else {
                                assert(r@[p as int] == g);
                            }
                        }
                    }
                } else {
                    proof {
                        assert forall|t: int|
                            0 <= t < j + 1 && (#[trigger] log_gen(names@[t]@)) is Some implies r@.contains(
                            log_gen(names@[t]@)->0,
                        ) by {
                            if t == j {
                                assert(r@[p as int] == g);
                            }
                        }
                    }
                }
            },
            None => {},
        }
        j = j + 1;
    }
    r
}

} // verus!

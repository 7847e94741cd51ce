use vstd::prelude::*;

verus! {

/// The value of the first entry keyed `k`, as a map lookup finds it.
pub open spec fn first_entry<V>(s: Seq<(u128, V)>, k: u128) -> Option<V>
    decreases s.len(),
{
    if s.len() == 0 {
        None
    } else {
        match first_entry(s.drop_last(), k) {
            Some(v) => Some(v),
            None => if s.last().0 == k {
                Some(s.last().1)
            } else {
                None
            },
        }
    }
}

/// The value of the first entry named `name`, as a map lookup finds it.
pub open spec fn first_named<V>(s: Seq<(String, V)>, name: Seq<char>) -> Option<V>
    decreases s.len(),
{
    if s.len() == 0 {
        None
    } else {
        match first_named(s.drop_last(), name) {
            Some(v) => Some(v),
            None => if s.last().0@ == name {
                Some(s.last().1)
            } else {
                None
            },
        }
    }
}

/// The position of the first occurrence of `name`.
pub open spec fn first_position(names: Seq<String>, name: Seq<char>) -> Option<usize>
    decreases names.len(),
{
    if names.len() == 0 {
        None
    } else {
        match first_position(names.drop_last(), name) {
            Some(i) => Some(i),
            None => if names.last()@ == name {
                Some((names.len() - 1) as usize)
            } else {
                None
            },
        }
    }
}

proof fn lemma_first_entry_persists<V>(s: Seq<(u128, V)>, k: u128, a: int, b: int)
    requires
        0 <= a <= b <= s.len(),
        first_entry(s.take(a), k) is Some,
    ensures
        first_entry(s.take(b), k) == first_entry(s.take(a), k),
    decreases b - a,
{
    if b > a {
        lemma_first_entry_persists(s, k, a, b - 1);
        assert(s.take(b).drop_last() =~= s.take(b - 1));
    }
}

proof fn lemma_first_named_persists<V>(s: Seq<(String, V)>, name: Seq<char>, a: int, b: int)
    requires
        0 <= a <= b <= s.len(),
        first_named(s.take(a), name) is Some,
    ensures
        first_named(s.take(b), name) == first_named(s.take(a), name),
    decreases b - a,
{
    if b > a {
        lemma_first_named_persists(s, name, a, b - 1);
        assert(s.take(b).drop_last() =~= s.take(b - 1));
    }
}

proof fn lemma_first_position_persists(s: Seq<String>, name: Seq<char>, a: int, b: int)
    requires
        0 <= a <= b <= s.len(),
        first_position(s.take(a), name) is Some,
    ensures
        first_position(s.take(b), name) == first_position(s.take(a), name),
    decreases b - a,
{
    if b > a {
        lemma_first_position_persists(s, name, a, b - 1);
        assert(s.take(b).drop_last() =~= s.take(b - 1));
    }
}

/// The position of the first entry keyed `k`, if any.
pub fn find_entry<V>(s: &Vec<(u128, V)>, k: u128) -> (r: Option<usize>)
    ensures
        match r {
            None => first_entry(s@, k) is None,
            Some(i) => (i as int) < s@.len() && s@[i as int].0 == k && first_entry(s@, k) == Some(
                s@[i as int].1,
            ),
        },
{
    let mut i: usize = 0;
    while i < s.len()
        invariant
            0 <= i <= s.len(),
            first_entry(s@.take(i as int), k) is None,
        decreases s.len() - i,
    {
        proof {
            assert(s@.take(i as int + 1).drop_last() =~= s@.take(i as int));
        }
        if s[i].0 == k {
            proof {
                lemma_first_entry_persists(s@, k, i as int + 1, s@.len() as int);
                assert(s@.take(s@.len() as int) =~= s@);
            }
            return Some(i);
        }
        i = i + 1;
    }
    proof {
        assert(s@.take(s@.len() as int) =~= s@);
    }
    None
}

/// The position of the first entry named `name`, if any.
pub fn find_named<V>(s: &Vec<(String, V)>, name: &String) -> (r: Option<usize>)
    ensures
        match r {
            None => first_named(s@, name@) is None,
            Some(i) => (i as int) < s@.len() && s@[i as int].0@ == name@ && first_named(s@, name@)
                == Some(s@[i as int].1),
        },
{
    let mut i: usize = 0;
    while i < s.len()
        invariant
            0 <= i <= s.len(),
            first_named(s@.take(i as int), name@) is None,
        decreases s.len() - i,
    {
        proof {
            assert(s@.take(i as int + 1).drop_last() =~= s@.take(i as int));
        }
        if s[i].0 == *name {
            proof {
                lemma_first_named_persists(s@, name@, i as int + 1, s@.len() as int);
                assert(s@.take(s@.len() as int) =~= s@);
            }
            return Some(i);
        }
        i = i + 1;
    }
    proof {
        assert(s@.take(s@.len() as int) =~= s@);
    }
    None
}

/// The position of the first occurrence of `name`, if any.
pub fn find_position(names: &Vec<String>, name: &String) -> (r: Option<usize>)
    ensures
        r == first_position(names@, name@),
        match r {
            None => true,
            Some(i) => (i as int) < names@.len() && names@[i as int]@ == name@,
        },
{
    let mut i: usize = 0;
    while i < names.len()
        invariant
            0 <= i <= names.len(),
            first_position(names@.take(i as int), name@) is None,
        decreases names.len() - i,
    {
        proof {
            assert(names@.take(i as int + 1).drop_last() =~= names@.take(i as int));
        }
        if names[i] == *name {
            proof {
                lemma_first_position_persists(names@, name@, i as int + 1, names@.len() as int);
                assert(names@.take(names@.len() as int) =~= names@);
            }
            return Some(i);
        }
        i = i + 1;
    }
    proof {
        assert(names@.take(names@.len() as int) =~= names@);
    }
    None
}

/// A lookup by key finds the value of the first entry with that key, and
/// nothing when no entry has it.
pub proof fn law_first_entry_is_first_match<V>(s: Seq<(u128, V)>, k: u128)
    ensures
        first_entry(s, k) is None ==> forall|j: int| 0 <= j < s.len() ==> (#[trigger] s[j]).0 != k,
        first_entry(s, k) matches Some(v) ==> exists|i: int|
            0 <= i < s.len() && (#[trigger] s[i]).0 == k && s[i].1 == v && forall|j: int|
                0 <= j < i ==> (#[trigger] s[j]).0 != k,
    decreases s.len(),
{
    if s.len() > 0 {
        let p = s.drop_last();
        law_first_entry_is_first_match(p, k);
        match first_entry(p, k) {
            Some(v) => {
                let i = choose|i: int|
                    0 <= i < p.len() && (#[trigger] p[i]).0 == k && p[i].1 == v && forall|j: int|
                        0 <= j < i ==> (#[trigger] p[j]).0 != k;
                assert(s[i] == p[i]);
                assert forall|j: int| 0 <= j < i implies (#[trigger] s[j]).0 != k by {
                    assert(s[j] == p[j]);
                }
            },
            None => {
                assert forall|j: int| 0 <= j < s.len() - 1 implies (#[trigger] s[j]).0 != k by {
                    assert(s[j] == p[j]);
                }
                assert(s.last() == s[s.len() - 1]);
            },
        }
    }
}

/// A lookup by name finds the value of the first entry with that name, and
/// nothing when no entry has it.
pub proof fn law_first_named_is_first_match<V>(s: Seq<(String, V)>, name: Seq<char>)
    ensures
        first_named(s, name) is None ==> forall|j: int|
            0 <= j < s.len() ==> (#[trigger] s[j]).0@ != name,
        first_named(s, name) matches Some(v) ==> exists|i: int|
            0 <= i < s.len() && (#[trigger] s[i]).0@ == name && s[i].1 == v && forall|j: int|
                0 <= j < i ==> (#[trigger] s[j]).0@ != name,
    decreases s.len(),
{
    if s.len() > 0 {
        let p = s.drop_last();
        law_first_named_is_first_match(p, name);
        match first_named(p, name) {
            Some(v) => {
                let i = choose|i: int|
                    0 <= i < p.len() && (#[trigger] p[i]).0@ == name && p[i].1 == v && forall|j: int|
                        0 <= j < i ==> (#[trigger] p[j]).0@ != name;
                assert(s[i] == p[i]);
                assert forall|j: int| 0 <= j < i implies (#[trigger] s[j]).0@ != name by {
                    assert(s[j] == p[j]);
                }
            },
            None => {
                assert forall|j: int| 0 <= j < s.len() - 1 implies (#[trigger] s[j]).0@ != name by {
                    assert(s[j] == p[j]);
                }
                assert(s.last() == s[s.len() - 1]);
            },
        }
    }
}

/// The position found for a name is that of its first occurrence, and
/// nothing is found when the name does not occur. (A list of names is at
/// most `usize::MAX` long.)
pub proof fn law_first_position_is_first_match(names: Seq<String>, name: Seq<char>)
    requires
        names.len() <= usize::MAX,
    ensures
        first_position(names, name) is None ==> forall|j: int|
            0 <= j < names.len() ==> (#[trigger] names[j])@ != name,
        first_position(names, name) matches Some(i) ==> (i as int) < names.len() && names[i as int]@
            == name && forall|j: int| 0 <= j < i ==> (#[trigger] names[j])@ != name,
    decreases names.len(),
{
    if names.len() > 0 {
        let p = names.drop_last();
        law_first_position_is_first_match(p, name);
        match first_position(p, name) {
            Some(i) => {
                assert(names[i as int] == p[i as int]);
                assert forall|j: int| 0 <= j < i implies (#[trigger] names[j])@ != name by {
                    assert(names[j] == p[j]);
                }
            },
            None => {
                assert forall|j: int| 0 <= j < names.len() - 1 implies (#[trigger] names[j])@ != name by {
                    assert(names[j] == p[j]);
                }
                assert(names.last() == names[names.len() - 1]);
            },
        }
    }
}

} // verus!

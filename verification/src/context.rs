use vstd::pervasive::VecAdditionalExecFns;
use vstd::prelude::*;
use vstd::string::StringExecFns;

verus! {

/// The value of an association list read as a map: a later entry for the
/// same name would win, though `Context` never keeps two.
pub open spec fn as_env(s: Seq<(String, i64)>) -> Map<Seq<char>, i64>
    decreases s.len(),
{
    if s.len() == 0 {
        Map::empty()
    } else {
        as_env(s.drop_last()).insert(s.last().0@, s.last().1)
    }
}

/// Execution context: the one mutable mapping from variable name to current
/// value, shared by the whole run of a program. There is no declaration
/// step and no nested scope: the first assignment creates the binding.
pub struct Context {
    variables: Vec<(String, i64)>,
}

impl View for Context {
    type V = Map<Seq<char>, i64>;

    closed spec fn view(&self) -> Map<Seq<char>, i64> {
        as_env(self.variables@)
    }
}

proof fn lemma_as_env_absent(s: Seq<(String, i64)>, k: Seq<char>)
    requires
        forall|i: int| 0 <= i < s.len() ==> (#[trigger] s[i]).0@ != k,
    ensures
        !as_env(s).contains_key(k),
    decreases s.len(),
{
    if s.len() > 0 {
        assert(s.last() == s[s.len() - 1]);
        lemma_as_env_absent(s.drop_last(), k);
    }
}

proof fn lemma_as_env_found(s: Seq<(String, i64)>, i: int)
    requires
        0 <= i < s.len(),
        forall|m: int, n: int|
            0 <= m < n < s.len() ==> (#[trigger] s[m]).0@ != (#[trigger] s[n]).0@,
    ensures
        as_env(s).contains_key(s[i].0@),
        as_env(s)[s[i].0@] == s[i].1,
    decreases s.len(),
{
    if i == s.len() - 1 {
        assert(s.last() == s[i]);
    } else {
        lemma_as_env_found(s.drop_last(), i);
        assert(s.drop_last()[i] == s[i]);
        assert(s[i].0@ != s[s.len() - 1].0@);
        assert(s.last() == s[s.len() - 1]);
    }
}

proof fn lemma_as_env_update(s: Seq<(String, i64)>, i: int, p: (String, i64))
    requires
        0 <= i < s.len(),
        p.0@ == s[i].0@,
        forall|m: int, n: int|
            0 <= m < n < s.len() ==> (#[trigger] s[m]).0@ != (#[trigger] s[n]).0@,
    ensures
        as_env(s.update(i, p)) == as_env(s).insert(p.0@, p.1),
    decreases s.len(),
{
    let t = s.update(i, p);
    if i == s.len() - 1 {
        assert(t.drop_last() =~= s.drop_last());
        assert(t.last() == p);
        assert(as_env(t) == as_env(s.drop_last()).insert(p.0@, p.1));
        assert(s.last() == s[i]);
        assert(as_env(s).insert(p.0@, p.1) =~= as_env(s.drop_last()).insert(p.0@, p.1));
    } else {
        assert(t.drop_last() =~= s.drop_last().update(i, p));
        assert(s.drop_last()[i] == s[i]);
        lemma_as_env_update(s.drop_last(), i, p);
        assert(t.last() == s.last());
        assert(s.last() == s[s.len() - 1]);
        assert(s[i].0@ != s[s.len() - 1].0@);
        assert(as_env(t) == as_env(s.drop_last()).insert(p.0@, p.1).insert(s.last().0@, s.last().1));
        assert(as_env(s.drop_last()).insert(p.0@, p.1).insert(s.last().0@, s.last().1)
            =~= as_env(s.drop_last()).insert(s.last().0@, s.last().1).insert(p.0@, p.1));
    }
}

impl Context {
    /// Constructors establish and every method preserves this: no two
    /// entries carry the same name.
    pub closed spec fn wf(&self) -> bool {
        forall|m: int, n: int|
            0 <= m < n < self.variables@.len() ==> (#[trigger] self.variables@[m]).0@ != (
            #[trigger] self.variables@[n]).0@
    }

    /// Makes an empty context: no variable is bound.
    pub fn new() -> (r: Context)
        ensures
            r.wf(),
            r@ == Map::<Seq<char>, i64>::empty(),
    {
        Context { variables: Vec::new() }
    }

    /// Binds a variable to a value, replacing any earlier binding.
    pub fn set_variable(&mut self, name: &str, value: i64)
        requires
            old(self).wf(),
        ensures
            final(self).wf(),
            final(self)@ == old(self)@.insert(name@, value),
    {
        let owned = String::from_str(name);
        let mut i: usize = 0;
        while i < self.variables.len()
            invariant
                *self == *old(self),
                self.wf(),
                owned@ == name@,
                i <= self.variables.len(),
                forall|j: int| 0 <= j < i ==> (#[trigger] self.variables@[j]).0@ != name@,
            decreases self.variables.len() - i,
        {
            if self.variables[i].0 == owned {
                let ghost s = self.variables@;
                proof {
                    assert(s[i as int].0@ == name@);
                }
                self.variables.set(i, (owned, value));
                proof {
                    lemma_as_env_update(s, i as int, (owned, value));
                    assert forall|j: int| 0 <= j < self.variables@.len() implies (
                    #[trigger] self.variables@[j]).0@ == s[j].0@ by {
                        if j != i {
                            assert(self.variables@[j] == s[j]);
                        }
                    }
                }
                return ;
            }
            i = i + 1;
        }
        let ghost s = self.variables@;
        self.variables.push((owned, value));
        proof {
            assert(self.variables@.drop_last() =~= s);
            assert(self.variables@.last() == (owned, value));
        }
    }

    /// Looks a variable up; yields nothing when it was never assigned.
    pub fn get_variable(&self, name: &str) -> (r: Option<i64>)
        requires
            self.wf(),
        ensures
            r == if self@.contains_key(name@) {
                Some(self@[name@])
            } else {
                None::<i64>
            },
    {
        let owned = String::from_str(name);
        let mut i: usize = 0;
        while i < self.variables.len()
            invariant
                self.wf(),
                owned@ == name@,
                i <= self.variables.len(),
                forall|j: int| 0 <= j < i ==> (#[trigger] self.variables@[j]).0@ != name@,
            decreases self.variables.len() - i,
        {
            if self.variables[i].0 == owned {
                let v = self.variables[i].1;
                proof {
                    lemma_as_env_found(self.variables@, i as int);
                }
                return Some(v);
            }
            i = i + 1;
        }
        proof {
            lemma_as_env_absent(self.variables@, name@);
        }
        None
    }
}

} // verus!

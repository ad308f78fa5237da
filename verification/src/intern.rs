//! Interned strings.
use rustc_hash::FxHashSet;
use vstd::prelude::*;

verus! {

/// Interns strings, returning `'static` lifetime strings.
pub struct StringPool {
    words: FxHashSet<&'static str>,
}

/// `FxHashSet::default`: a new set holds nothing.
#[verifier::external_body]
fn words_new() -> (words: FxHashSet<&'static str>)
    ensures
        words@ == Set::<&'static str>::empty(),
{
    FxHashSet::default()
}

/// `FxHashSet::get`: the member equal to `s`, if there is one. Strings are equal if they
/// hold the same characters.
#[verifier::external_body]
fn words_get(words: &FxHashSet<&'static str>, s: &str) -> (found: Option<&'static str>)
    ensures
        found matches Some(t) ==> words@.contains(t) && t@ == s@,
        found is None ==> forall|t: &'static str| #[trigger] words@.contains(t) ==> t@ != s@,
{
    words.get(s).copied()
}

/// `FxHashSet::insert`: the set gains `s`, which it did not hold before.
#[verifier::external_body]
fn words_insert(words: &mut FxHashSet<&'static str>, s: &'static str)
    requires
        forall|t: &'static str| #[trigger] old(words)@.contains(t) ==> t@ != s@,
    ensures
        final(words)@ == old(words)@.insert(s),
{
    words.insert(s);
}

/// `String::leak`: the string itself, which is never freed.
#[verifier::external_body]
fn leak(s: String) -> (leaked: &'static str)
    ensures
        leaked@ == s@,
{
    s.leak()
}

impl StringPool {
    /// The members of the pool.
    pub closed spec fn members(&self) -> Set<&'static str> {
        self.words@
    }

    /// Whether the pool has the string with these characters.
    pub open spec fn holds(&self, word: Seq<char>) -> bool {
        exists|t: &'static str| #[trigger] self.members().contains(t) && t@ == word
    }

    /// Moves a string into the pool. A string that is there already is handed out again.
    pub fn intern(&mut self, s: &str) -> (r: &'static str)
        ensures
            r@ == s@,
            final(self).members().contains(r),
            old(self).holds(s@) ==> final(self).members() == old(self).members(),
            !old(self).holds(s@) ==> final(self).members() == old(self).members().insert(r),
            forall|word: Seq<char>| #[trigger]
                final(self).holds(word) <==> old(self).holds(word) || word == s@,
    {
        let ghost before = self.members();
        if let Some(existing) = words_get(&self.words, s) {
            assert(self.holds(s@));
            return existing;
        }
        let leaked: &'static str = leak(s.to_owned());
        words_insert(&mut self.words, leaked);
        proof {
            assert forall|word: Seq<char>| #[trigger] self.holds(word) <==> old(self).holds(word)
                || word == s@ by {
                if old(self).holds(word) {
                    let t = choose|t: &'static str| #[trigger] before.contains(t) && t@ == word;
                    assert(self.members().contains(t));
                }
                if word == s@ {
                    assert(self.members().contains(leaked));
                }
                if self.holds(word) && word != s@ {
                    let t = choose|t: &'static str| #[trigger]
                        self.members().contains(t) && t@ == word;
                    assert(before.contains(t));
                }
            }
        }
        leaked
    }
}

impl Default for StringPool {
    fn default() -> (pool: Self)
        ensures
            pool.members() == Set::<&'static str>::empty(),
    {
        StringPool { words: words_new() }
    }
}

/// Interning a string makes the pool hold it, and interning it again changes nothing.
pub proof fn law_intern_again_changes_nothing(
    between: StringPool,
    after: StringPool,
    word: Seq<char>,
    first: &'static str,
    second: &'static str,
)
    requires
        between.members().contains(first) && first@ == word,
        between.holds(word) ==> after.members() == between.members(),
        !between.holds(word) ==> after.members() == between.members().insert(second),
    ensures
        between.holds(word),
        after.members() == between.members(),
{
}

/// Moves a value into the pool, giving its strings a `'static` lifetime.
pub trait Intern: Sized {
    type Static;

    /// The value with all its strings in the pool.
    spec fn is_interned(self, interned: Self::Static) -> bool;

    /// The strings of the value.
    spec fn has_word(self, word: Seq<char>) -> bool;

    fn intern(self, pool: &mut StringPool) -> (interned: Self::Static)
        ensures
            self.is_interned(interned),
            forall|word: Seq<char>| #[trigger]
                final(pool).holds(word) <==> old(pool).holds(word) || self.has_word(word),
    ;
}

impl<'a> Intern for &'a str {
    type Static = &'static str;

    open spec fn is_interned(self, interned: &'static str) -> bool {
        interned@ == self@
    }

    open spec fn has_word(self, word: Seq<char>) -> bool {
        word == self@
    }

    fn intern(self, pool: &mut StringPool) -> (interned: &'static str) {
        pool.intern(self)
    }
}

impl<T: Intern> Intern for Option<T> {
    type Static = Option<T::Static>;

    open spec fn is_interned(self, interned: Option<T::Static>) -> bool {
        match (self, interned) {
            (Some(a), Some(b)) => a.is_interned(b),
            (None, None) => true,
            _ => false,
        }
    }

    open spec fn has_word(self, word: Seq<char>) -> bool {
        match self {
            Some(a) => a.has_word(word),
            None => false,
        }
    }

    fn intern(self, pool: &mut StringPool) -> (interned: Option<T::Static>) {
        match self {
            Some(a) => Some(a.intern(pool)),
            None => None,
        }
    }
}

/// One of the values has the word.
pub open spec fn any_has_word<T: Intern>(list: Seq<T>, word: Seq<char>) -> bool {
    exists|i: int| 0 <= i < list.len() && (#[trigger] list[i]).has_word(word)
}

impl<T: Intern> Intern for Vec<T> {
    type Static = Vec<T::Static>;

    open spec fn is_interned(self, interned: Vec<T::Static>) -> bool {
        &&& interned@.len() == self@.len()
        &&& forall|i: int| 0 <= i < self@.len() ==> (#[trigger] self@[i]).is_interned(interned@[i])
    }

    open spec fn has_word(self, word: Seq<char>) -> bool {
        any_has_word(self@, word)
    }

    fn intern(self, pool: &mut StringPool) -> (interned: Vec<T::Static>) {
        let ghost all = self@;
        let ghost start = *pool;
        let mut list = self;
        let mut reversed: Vec<T> = Vec::new();
        while list.len() > 0
            invariant
                list@ == all.take(list@.len() as int),
                list@.len() + reversed@.len() == all.len(),
                forall|i: int|
                    0 <= i < reversed@.len() ==> #[trigger] reversed@[i] == all[all.len() - 1 - i],
            decreases list@.len(),
        {
            let item = list.pop().unwrap();
            reversed.push(item);
            assert(list@ =~= all.take(list@.len() as int));
        }
        let mut interned: Vec<T::Static> = Vec::new();
        while reversed.len() > 0
            invariant
                interned@.len() + reversed@.len() == all.len(),
                forall|i: int|
                    0 <= i < reversed@.len() ==> #[trigger] reversed@[i] == all[all.len() - 1 - i],
                forall|i: int|
                    0 <= i < interned@.len() ==> (#[trigger] all[i]).is_interned(interned@[i]),
                forall|word: Seq<char>| #[trigger]
                    pool.holds(word) <==> start.holds(word) || any_has_word(
                        all.take(interned@.len() as int),
                        word,
                    ),
            decreases reversed@.len(),
        {
            let ghost done = all.take(interned@.len() as int);
            let item = reversed.pop().unwrap();
            assert(item == all[interned@.len() as int]);
            let ghost k = interned@.len() as int;
            let ghost middle = *pool;
            let one = item.intern(pool);
            interned.push(one);
            proof {
                let more = all.take(k + 1);
                assert forall|word: Seq<char>| #[trigger] pool.holds(word) <==> start.holds(word)
                    || any_has_word(more, word) by {
                    assert(pool.holds(word) <==> middle.holds(word) || all[k].has_word(word));
                    if any_has_word(done, word) {
                        let i = choose|i: int|
                            0 <= i < done.len() && (#[trigger] done[i]).has_word(word);
                        assert(more[i].has_word(word));
                    }
                    if all[k].has_word(word) {
                        assert(more[k].has_word(word));
                    }
                    if any_has_word(more, word) {
                        let i = choose|i: int|
                            0 <= i < more.len() && (#[trigger] more[i]).has_word(word);
                        if i < k {
                            assert(done[i].has_word(word));
                        }
                    }
                }
            }
        }
        assert(all.take(all.len() as int) =~= all);
        interned
    }
}

} // verus!

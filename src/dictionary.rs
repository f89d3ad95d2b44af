use vstd::prelude::*;

verus! {

/// `p` is a prefix of `w`.
pub open spec fn starts_with(w: Seq<char>, p: Seq<char>) -> bool {
    p.len() <= w.len() && w.subrange(0, p.len() as int) == p
}

/// Two character sequences hold the same characters.
pub fn same_chars(a: &Vec<char>, b: &Vec<char>) -> (r: bool)
    ensures
        r == (a@ == b@),
{
    if a.len() != b.len() {
        return false;
    }
    let mut i: usize = 0;
    while i < a.len()
        invariant
            0 <= i <= a.len(),
            a.len() == b.len(),
            a@.subrange(0, i as int) == b@.subrange(0, i as int),
        decreases a.len() - i,
    {
        if a[i] != b[i] {
            assert(a@.subrange(0, i as int + 1)[i as int] != b@.subrange(0, i as int + 1)[i as int]);
            assert(a@ != b@) by {
                if a@ == b@ {
                    assert(a@[i as int] == b@[i as int]);
                }
            }
            return false;
        }
        assert(a@.subrange(0, i as int + 1) =~= b@.subrange(0, i as int + 1)) by {
            assert(forall|k: int| 0 <= k < i ==> a@.subrange(0, i as int)[k] == b@.subrange(0, i as int)[k]);
        }
        i = i + 1;
    }
    assert(a@ =~= a@.subrange(0, a@.len() as int));
    assert(b@ =~= b@.subrange(0, b@.len() as int));
    true
}

/// `p` is a prefix of `w`, computed.
pub fn is_prefix(p: &Vec<char>, w: &Vec<char>) -> (r: bool)
    ensures
        r == starts_with(w@, p@),
{
    if p.len() > w.len() {
        return false;
    }
    let mut i: usize = 0;
    while i < p.len()
        invariant
            0 <= i <= p.len() <= w.len(),
            p@.subrange(0, i as int) == w@.subrange(0, i as int),
        decreases p.len() - i,
    {
        if p[i] != w[i] {
            assert(w@.subrange(0, p@.len() as int)[i as int] == w@[i as int]);
            return false;
        }
        assert(p@.subrange(0, i as int + 1) =~= w@.subrange(0, i as int + 1)) by {
            assert(forall|k: int| 0 <= k < i ==> p@.subrange(0, i as int)[k] == w@.subrange(0, i as int)[k]);
        }
        i = i + 1;
    }
    assert(p@ =~= p@.subrange(0, p@.len() as int));
    true
}

/// An immutable set of words, each held once.
pub struct Dictionary {
    words: Vec<Vec<char>>,
}

impl View for Dictionary {
    type V = Set<Seq<char>>;

    closed spec fn view(&self) -> Set<Seq<char>> {
        Set::new(|w: Seq<char>| exists|i: int| 0 <= i < self.words@.len() && #[trigger] self.words@[i]@ == w)
    }
}

impl Dictionary {
    /// No word is held twice.
    pub closed spec fn wf(&self) -> bool {
        forall|i: int, j: int|
            0 <= i < j < self.words@.len() ==> #[trigger] self.words@[i]@ != #[trigger] self.words@[j]@
    }

    /// The empty dictionary.
    pub fn new() -> (d: Dictionary)
        ensures
            d.wf(),
            d@ == Set::<Seq<char>>::empty(),
    {
        let d = Dictionary { words: Vec::new() };
        assert(d@ =~= Set::<Seq<char>>::empty());
        d
    }

    /// Adds one word; a word already held is left as it is.
    pub fn insert(&mut self, word: Vec<char>)
        requires
            old(self).wf(),
        ensures
            final(self).wf(),
            final(self)@ == old(self)@.insert(word@),
    {
        if self.contains(&word) {
            assert(self@ =~= self@.insert(word@));
            return;
        }
        let ghost w = word@;
        let ghost before = self@;
        let ghost old_words = self.words@;
        self.words.push(word);
        assert(self.words@ == old_words.push(self.words@[old_words.len() as int]));
        assert(self.words@[old_words.len() as int]@ == w);
        assert forall|x: Seq<char>| before.insert(w).contains(x) implies self@.contains(x) by {
            if x != w {
                let i = choose|i: int| 0 <= i < old_words.len() && #[trigger] old_words[i]@ == x;
                assert(self.words@[i]@ == x);
            }
        }
        assert forall|x: Seq<char>| self@.contains(x) implies before.insert(w).contains(x) by {
            let i = choose|i: int| 0 <= i < self.words@.len() && #[trigger] self.words@[i]@ == x;
            if i < old_words.len() {
                assert(old_words[i]@ == x);
            }
        }
        assert(self@ =~= before.insert(w));
        assert forall|i: int, j: int| 0 <= i < j < self.words@.len() implies #[trigger] self.words@[i]@
            != #[trigger] self.words@[j]@ by {
            if j == old_words.len() {
                assert(before.contains(old_words[i]@));
            } else {
                assert(old_words[i]@ != old_words[j]@);
            }
        }
    }

    /// Builds the set of the given words; duplicates collapse.
    pub fn from_words(words: Vec<Vec<char>>) -> (d: Dictionary)
        ensures
            d.wf(),
            d@ == words@.map_values(|w: Vec<char>| w@).to_set(),
    {
        let ghost all = words@.map_values(|w: Vec<char>| w@);
        let mut d = Dictionary::new();
        let mut i: usize = 0;
        while i < words.len()
            invariant
                0 <= i <= words.len(),
                all == words@.map_values(|w: Vec<char>| w@),
                d.wf(),
                d@ == all.subrange(0, i as int).to_set(),
            decreases words.len() - i,
        {
            let w = words[i].clone();
            d.insert(w);
            assert(all.subrange(0, i as int + 1) =~= all.subrange(0, i as int).push(all[i as int]));
            proof {
                all.subrange(0, i as int).lemma_push_to_set_commute(all[i as int]);
            }
            i = i + 1;
        }
        assert(all.subrange(0, words.len() as int) =~= all);
        d
    }

    /// Exact membership.
    pub fn contains(&self, word: &Vec<char>) -> (r: bool)
        ensures
            r == self@.contains(word@),
    {
        let mut i: usize = 0;
        while i < self.words.len()
            invariant
                0 <= i <= self.words.len(),
                forall|k: int| 0 <= k < i ==> #[trigger] self.words@[k]@ != word@,
            decreases self.words.len() - i,
        {
            if same_chars(&self.words[i], word) {
                return true;
            }
            i = i + 1;
        }
        false
    }

    /// Some word of the dictionary begins with `prefix`.
    pub fn has_prefix(&self, prefix: &Vec<char>) -> (r: bool)
        ensures
            r == exists|w: Seq<char>| self@.contains(w) && starts_with(w, prefix@),
    {
        let mut i: usize = 0;
        while i < self.words.len()
            invariant
                0 <= i <= self.words.len(),
                forall|k: int| 0 <= k < i ==> !starts_with(#[trigger] self.words@[k]@, prefix@),
            decreases self.words.len() - i,
        {
            if is_prefix(prefix, &self.words[i]) {
                assert(self@.contains(self.words@[i as int]@));
                return true;
            }
            i = i + 1;
        }
        assert forall|w: Seq<char>| self@.contains(w) implies !starts_with(w, prefix@) by {
            let k = choose|k: int| 0 <= k < self.words@.len() && #[trigger] self.words@[k]@ == w;
            assert(!starts_with(self.words@[k]@, prefix@));
        }
        false
    }
}

} // verus!

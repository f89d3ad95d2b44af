use vstd::prelude::*;

verus! {

/// An append-only, duplicate-tolerant record of discovered words.
pub struct ResultSink {
    words: Vec<Vec<char>>,
}

impl View for ResultSink {
    type V = Seq<Seq<char>>;

    closed spec fn view(&self) -> Seq<Seq<char>> {
        self.words@.map_values(|w: Vec<char>| w@)
    }
}

impl ResultSink {
    pub fn new() -> (s: ResultSink)
        ensures
            s@ == Seq::<Seq<char>>::empty(),
    {
        let s = ResultSink { words: Vec::new() };
        assert(s@ =~= Seq::<Seq<char>>::empty());
        s
    }

    /// Appends one word.
    pub fn record(&mut self, word: Vec<char>)
        ensures
            final(self)@ == old(self)@.push(word@),
    {
        let ghost w = word@;
        self.words.push(word);
        assert(self@ =~= old(self)@.push(w));
    }

    /// The words recorded so far, in order.
    pub fn words(&self) -> (r: &Vec<Vec<char>>)
        ensures
            r@.map_values(|w: Vec<char>| w@) == self@,
    {
        &self.words
    }

    pub fn len(&self) -> (r: usize)
        ensures
            r == self@.len(),
    {
        self.words.len()
    }
}

} // verus!

use vstd::prelude::*;

verus! {

/// The results of one completed round.
#[derive(Clone, Debug, PartialEq, Eq)]
pub struct RoundData {
    pub question: String,
    pub yes: usize,
    pub no: usize,
    /// The guess of each player present at completion, keyed by player name.
    pub guesses: Vec<(String, String)>,
}

/// The mathematical content of a `RoundData`.
pub struct RoundView {
    pub question: Seq<char>,
    pub yes: nat,
    pub no: nat,
    pub guesses: Seq<(Seq<char>, Seq<char>)>,
}

pub open spec fn pair_view(p: (String, String)) -> (Seq<char>, Seq<char>) {
    (p.0@, p.1@)
}

impl View for RoundData {
    type V = RoundView;

    open spec fn view(&self) -> RoundView {
        RoundView {
            question: self.question@,
            yes: self.yes as nat,
            no: self.no as nat,
            guesses: self.guesses@.map_values(|p: (String, String)| pair_view(p)),
        }
    }
}

impl RoundData {
    /// A copy with the same content.
    pub fn duplicate(&self) -> (r: RoundData)
        ensures
            r@ == self@,
    {
        let mut guesses: Vec<(String, String)> = Vec::new();
        let mut i: usize = 0;
        while i < self.guesses.len()
            invariant
                i <= self.guesses.len(),
                guesses.len() == i,
                forall|j: int| 0 <= j < i ==> pair_view(#[trigger] guesses@[j]) == pair_view(self.guesses@[j]),
            decreases self.guesses.len() - i,
        {
            let pair = (self.guesses[i].0.clone(), self.guesses[i].1.clone());
            guesses.push(pair);
            i = i + 1;
        }
        assert(guesses@.map_values(|p: (String, String)| pair_view(p)) =~= self.guesses@.map_values(
            |p: (String, String)| pair_view(p),
        ));
        RoundData { question: self.question.clone(), yes: self.yes, no: self.no, guesses }
    }
}

} // verus!

//! Building a generation with the help of a store of finished generations.
use crate::array::{shape_fits, Polycube};
use crate::expand::views;
use crate::generate::{
    generate_polycubes, generation, lemma_generation_roomy, next_generation, roomy, successors,
};
use crate::grid::{fits, lemma_span_bounds, Grid};
use vstd::prelude::*;

verus! {

/// Where a run stands that builds a generation with the help of a store of
/// finished generations.
#[derive(Clone, Copy, Debug)]
pub enum Phase {
    /// The stored generation of `level` cubes has been asked for.
    Seeking,
    /// The generation of `level` cubes is at hand and is being stored.
    Storing,
    /// The generation asked for is at hand.
    Finished,
    /// The shapes at hand are too large to grow: the store held something
    /// that is no generation.
    Stuck,
}

/// What a run asks of the store before it goes on.
#[derive(Clone, Copy, Debug)]
pub enum Request {
    /// Look up the generation of this many cubes.
    Load(u8),
    /// Store the shapes at hand as the generation of this many cubes.
    Save(u8),
    /// Nothing more: the generation asked for is at hand.
    Done,
    /// Nothing more: the run cannot go on.
    Fail,
}

/// What the store answers.
pub enum Reply {
    /// Nothing is stored under the number asked for.
    Missing,
    /// The generation that is stored under the number asked for.
    Loaded(Vec<Polycube>),
    /// The shapes at hand have been stored.
    Saved,
}

/// An answer of the store with grids in place of arrays.
pub enum Answer {
    Missing,
    Loaded(Seq<Grid>),
    Saved,
}

impl View for Reply {
    type V = Answer;

    open spec fn view(&self) -> Answer {
        match self {
            Reply::Missing => Answer::Missing,
            Reply::Loaded(shapes) => Answer::Loaded(views(shapes@)),
            Reply::Saved => Answer::Saved,
        }
    }
}

/// The state of a run with grids in place of arrays.
pub struct State {
    pub number: u8,
    pub level: u8,
    pub phase: Phase,
    pub shapes: Seq<Grid>,
}

impl State {
    /// While generations are looked up or stored, their number of cubes is
    /// at least three and at most the number asked for.
    pub open spec fn wf(self) -> bool {
        (self.phase is Seeking || self.phase is Storing) ==> 3 <= self.level <= self.number
    }

    /// The state in which a run begins. Generations of fewer than three
    /// cubes are never looked up, and nothing is where the store is not used:
    /// the generation is built at once.
    pub open spec fn start(number: u8, use_cache: bool) -> State {
        if number < 3 || !use_cache {
            State {
                number,
                level: number,
                phase: Phase::Finished,
                shapes: generation(number as nat),
            }
        } else {
            State { number, level: number, phase: Phase::Seeking, shapes: Seq::empty() }
        }
    }

    /// What the run asks of the store in this state.
    pub open spec fn request(self) -> Request {
        match self.phase {
            Phase::Seeking => Request::Load(self.level),
            Phase::Storing => Request::Save(self.level),
            Phase::Finished => Request::Done,
            Phase::Stuck => Request::Fail,
        }
    }

    /// The state after the next generation has been built from the shapes at
    /// hand, to be stored; or the state in which the run is stuck, where the
    /// shapes at hand are too large to grow.
    pub open spec fn grown(self) -> State {
        if roomy(self.shapes) {
            State {
                number: self.number,
                level: (self.level + 1) as u8,
                phase: Phase::Storing,
                shapes: successors(self.shapes),
            }
        } else {
            State { phase: Phase::Stuck, ..self }
        }
    }

    /// The state after the store has answered. A missing generation is built
    /// from the one before, which is looked up in turn, down to the
    /// generation of two cubes, which is never looked up. A generation that
    /// was found or stored is the one asked for, or the next is built from it
    /// and stored. An answer to what was not asked changes nothing.
    pub open spec fn step(self, reply: Answer) -> State {
        match (self.phase, reply) {
            (Phase::Seeking, Answer::Missing) => if self.level <= 3 {
                (State { level: 2, shapes: generation(2), ..self }).grown()
            } else {
                State { level: (self.level - 1) as u8, ..self }
            },
            (Phase::Seeking, Answer::Loaded(shapes)) => if self.level >= self.number {
                State { phase: Phase::Finished, shapes, ..self }
            } else {
                (State { shapes, ..self }).grown()
            },
            (Phase::Storing, Answer::Saved) => if self.level >= self.number {
                State { phase: Phase::Finished, ..self }
            } else {
                self.grown()
            },
            _ => self,
        }
    }

    /// Whether the shapes at hand are the generation that the state says
    /// they are.
    pub open spec fn faithful(self) -> bool {
        &&& self.wf()
        &&& self.phase is Storing ==> self.shapes == generation(self.level as nat)
        &&& self.phase is Finished ==> self.shapes == generation(self.number as nat)
        &&& !(self.phase is Stuck)
    }

    /// Whether an answer of the store is true: what it says is stored under
    /// the number asked for is the generation of that number.
    pub open spec fn honest(self, reply: Answer) -> bool {
        (self.phase is Seeking && reply is Loaded) ==> reply->Loaded_0 == generation(
            self.level as nat,
        )
    }
}

impl State {
    /// Whether an answer is one to what the run asked: a generation or its
    /// absence where one was looked up, the word that shapes were stored
    /// where they were to be stored.
    pub open spec fn answers(self, reply: Answer) -> bool {
        match self.phase {
            Phase::Seeking => reply is Missing || reply is Loaded,
            Phase::Storing => reply is Saved,
            _ => false,
        }
    }

    /// A bound on the number of answers that the run still needs.
    pub open spec fn remaining(self) -> nat {
        match self.phase {
            Phase::Seeking => (self.level + self.number) as nat,
            Phase::Storing => (self.number - self.level + 1) as nat,
            _ => 0,
        }
    }
}

/// A run comes to an end: as long as the store answers truly what it was
/// asked, each answer brings the run nearer to the generation asked for.
pub proof fn lemma_run_ends(s: State, reply: Answer)
    requires
        s.faithful(),
        s.honest(reply),
        s.answers(reply),
    ensures
        s.step(reply).remaining() < s.remaining(),
{
    lemma_run_faithful(s.number, true, s, reply);
    lemma_generation_roomy(2);
    lemma_generation_roomy(s.level as nat);
}

/// A run begins with the right shapes at hand, and keeps them as long as the
/// store answers truly: it never gets stuck, and when it is finished the
/// shapes at hand are the generation asked for.
pub proof fn lemma_run_faithful(number: u8, use_cache: bool, s: State, reply: Answer)
    requires
        s.faithful(),
        s.honest(reply),
    ensures
        State::start(number, use_cache).faithful(),
        s.step(reply).faithful(),
{
    lemma_generation_roomy(2);
    if s.phase is Storing {
        lemma_generation_roomy(s.level as nat);
    }
    if s.phase is Seeking {
        lemma_generation_roomy(s.level as nat);
    }
    assert(generation(3) == successors(generation(2)));
    if s.level < 255 && s.level >= 2 {
        assert(generation((s.level + 1) as nat) == successors(generation(s.level as nat))) by {
            assert((s.level + 1 - 1) as nat == s.level as nat);
        }
    }
}

/// Decides whether the generation after these shapes can be built.
pub fn is_expandable(base: &Vec<Polycube>) -> (r: bool)
    ensures
        r == roomy(views(base@)),
{
    let mut i: usize = 0;
    while i < base.len()
        invariant
            i <= base@.len(),
            forall|j: int|
                0 <= j < i ==> fits(
                    (#[trigger] base@[j])@.nx + 2,
                    base@[j]@.ny + 2,
                    base@[j]@.nz + 2,
                ),
        decreases base@.len() - i,
    {
        let d = base[i].dim();
        proof {
            lemma_span_bounds(d.0 as nat, d.1 as nat, d.2 as nat);
        }
        if !shape_fits(d.0 + 2, d.1 + 2, d.2 + 2) {
            proof {
                assert(views(base@)[i as int] == base@[i as int]@);
            }
            return false;
        }
        i += 1;
    }
    proof {
        assert forall|j: int| 0 <= j < views(base@).len() implies fits(
            (#[trigger] views(base@)[j]).nx + 2,
            views(base@)[j].ny + 2,
            views(base@)[j].nz + 2,
        ) by {
            assert(views(base@)[j] == base@[j]@);
        }
    }
    true
}

/// A run that builds a generation with the help of a store of finished
/// generations. The run itself touches no store: it says what it needs, and
/// is told what was found.
pub struct Driver {
    pub number: u8,
    pub level: u8,
    pub phase: Phase,
    pub polycubes: Vec<Polycube>,
}

impl View for Driver {
    type V = State;

    open spec fn view(&self) -> State {
        State {
            number: self.number,
            level: self.level,
            phase: self.phase,
            shapes: views(self.polycubes@),
        }
    }
}

impl Driver {
    /// Begins a run for the generation of `number` cubes.
    pub fn new(number: u8, use_cache: bool) -> (d: Driver)
        ensures
            d@ == State::start(number, use_cache),
            d@.wf(),
    {
        if number < 3 || !use_cache {
            Driver {
                number,
                level: number,
                phase: Phase::Finished,
                polycubes: generate_polycubes(number),
            }
        } else {
            let d = Driver { number, level: number, phase: Phase::Seeking, polycubes: Vec::new() };
            assert(views(d.polycubes@) =~= Seq::<Grid>::empty());
            d
        }
    }

    /// What the run asks of the store next.
    pub fn request(&self) -> (r: Request)
        ensures
            r == self@.request(),
    {
        match self.phase {
            Phase::Seeking => Request::Load(self.level),
            Phase::Storing => Request::Save(self.level),
            Phase::Finished => Request::Done,
            Phase::Stuck => Request::Fail,
        }
    }

    /// Builds the next generation from the shapes at hand.
    fn grow(&mut self)
        requires
            old(self).level < 255,
        ensures
            final(self)@ == old(self)@.grown(),
    {
        if is_expandable(&self.polycubes) {
            self.polycubes = next_generation(&self.polycubes);
            self.level = self.level + 1;
            self.phase = Phase::Storing;
        } else {
            self.phase = Phase::Stuck;
        }
    }

    /// Takes the answer of the store and goes on.
    pub fn step(&mut self, reply: Reply) -> (r: Request)
        ensures
            final(self)@ == old(self)@.step(reply@),
            old(self)@.wf() ==> final(self)@.wf(),
            r == final(self)@.request(),
    {
        match (self.phase, reply) {
            (Phase::Seeking, Reply::Missing) => {
                if self.level <= 3 {
                    self.polycubes = generate_polycubes(2);
                    self.level = 2;
                    self.grow();
                } else {
                    self.level = self.level - 1;
                }
            },
            (Phase::Seeking, Reply::Loaded(shapes)) => {
                self.polycubes = shapes;
                if self.level >= self.number {
                    self.phase = Phase::Finished;
                } else {
                    self.grow();
                }
            },
            (Phase::Storing, Reply::Saved) => {
                if self.level >= self.number {
                    self.phase = Phase::Finished;
                } else {
                    self.grow();
                }
            },
            _ => {},
        }
        self.request()
    }

    /// The shapes at hand: the generation to store while the run is storing,
    /// and the generation asked for when it is finished.
    pub fn polycubes(&self) -> (shapes: &Vec<Polycube>)
        ensures
            views(shapes@) == self@.shapes,
    {
        &self.polycubes
    }

    /// Ends the run and hands out the shapes at hand.
    pub fn into_polycubes(self) -> (shapes: Vec<Polycube>)
        ensures
            views(shapes@) == self@.shapes,
    {
        self.polycubes
    }
}

} // verus!

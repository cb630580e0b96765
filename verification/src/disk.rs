//! The storage driver: the steps on files that the library asks for, the record of the steps
//! that were asked for and of what the driver said to them, and what is stated of both.

use vstd::prelude::*;
use vstd::string::*;

verus! {

/// One step that the storage driver takes for the library. The library decides which steps are
/// taken and in what order; whoever calls it takes them, on files.
#[derive(Debug, PartialEq)]
pub enum Action {
    /// Open the file, create it where it is missing, and hand back its lines.
    Read(String),
    /// Write the lines at the end of the file, each with its line end.
    Append(String, Vec<String>),
    /// Put a file that holds these lines in the place of the file.
    Replace(String, Vec<String>),
    /// Delete the file.
    Remove(String),
}

/// The mathematical value of a step.
pub enum Step {
    Read(Seq<char>),
    Append(Seq<char>, Seq<Seq<char>>),
    Replace(Seq<char>, Seq<Seq<char>>),
    Remove(Seq<char>),
}

/// The texts of a sequence of strings, one for one.
pub open spec fn texts(s: Seq<String>) -> Seq<Seq<char>> {
    Seq::new(s.len(), |i: int| s[i]@)
}

impl View for Action {
    type V = Step;

    open spec fn view(&self) -> Step {
        match self {
            Action::Read(p) => Step::Read(p@),
            Action::Append(p, l) => Step::Append(p@, texts(l@)),
            Action::Replace(p, l) => Step::Replace(p@, texts(l@)),
            Action::Remove(p) => Step::Remove(p@),
        }
    }
}

/// What a driver answers to each step: `None` where the step failed, else the lines that were
/// read (none for a step that reads nothing).
pub type Disk = spec_fn(Step) -> Option<Seq<Seq<char>>>;

/// The mathematical value of an answer.
pub open spec fn answer(r: Option<Vec<String>>) -> Option<Seq<Seq<char>>> {
    match r {
        Some(lines) => Some(texts(lines@)),
        None => None,
    }
}

/// A storage driver with the record of what it was asked: the steps, in their order, and what
/// it said to each.
pub struct Driver<D> {
    run: D,
    asked: Ghost<Seq<Step>>,
    said: Ghost<Seq<Option<Seq<Seq<char>>>>>,
}

impl<D: Fn(Action) -> Option<Vec<String>>> Driver<D> {
    /// The function that takes the steps.
    pub closed spec fn run(self) -> D {
        self.run
    }

    /// The steps that the driver was asked for, in their order.
    pub closed spec fn asked(self) -> Seq<Step> {
        self.asked@
    }

    /// What the driver said to each step that it was asked for, in their order.
    pub closed spec fn said(self) -> Seq<Option<Seq<Seq<char>>>> {
        self.said@
    }

    /// A driver that has not been asked for anything yet.
    pub fn new(run: D) -> (io: Driver<D>)
        ensures
            io.run() == run,
            io.asked() == Seq::<Step>::empty(),
            io.said() == Seq::<Option<Seq<Seq<char>>>>::empty(),
    {
        Driver { run, asked: Ghost(Seq::empty()), said: Ghost(Seq::empty()) }
    }

    /// Has the driver take one step, and records the step and what the driver said.
    pub fn take(&mut self, a: Action) -> (r: Option<Vec<String>>)
        requires
            ready(*old(self)),
        ensures
            ready(*final(self)),
            heard(*old(self), *final(self), a@),
            final(self).said().last() == answer(r),
    {
        let ghost step = a@;
        let ghost action = a;
        proof {
            assert(call_requires(old(self).run(), (a,)));
            assert(old(self).run() == self.run);
        }
        let r = (self.run)(a);
        proof {
            self.asked@ = self.asked@.push(step);
            self.said@ = self.said@.push(answer(r));
        }
        assert(self.asked@ =~= old(self).asked@ + seq![step]);
        assert(self.said@.drop_last() =~= old(self).said@);
        assert(self.asked@.subrange(0, old(self).asked@.len() as int) =~= old(self).asked@);
        assert(self.said@.subrange(0, old(self).said@.len() as int) =~= old(self).said@);
        proof {
            let last = self.asked().len() - 1;
            assert(self.asked()[last] == step);
            assert(self.said()[last] == answer(r));
            assert(call_ensures(old(self).run(), (action,), r));
        }
        r
    }
}

/// The driver can be asked for every step, and it has said something to every step that it
/// was asked for.
pub open spec fn ready<D: Fn(Action) -> Option<Vec<String>>>(io: Driver<D>) -> bool {
    &&& (forall|a: Action| call_requires(io.run(), (a,)))
    &&& io.said().len() == io.asked().len()
}

/// The function of a driver serves `disk`: whatever it answers to a step is what `disk` gives
/// for it.
pub open spec fn serving<D: Fn(Action) -> Option<Vec<String>>>(run: D, disk: Disk) -> bool {
    forall|a: Action, x: Option<Vec<String>>| call_ensures(run, (a,), x) ==> answer(x) == disk(a@)
}

/// `disk` gives for each step that the driver was asked for between `old` and `now` what the
/// driver said to it.
pub open spec fn agrees<D: Fn(Action) -> Option<Vec<String>>>(
    disk: Disk,
    old: Driver<D>,
    now: Driver<D>,
) -> bool {
    forall|i: int|
        old.asked().len() <= i < now.asked().len() ==> disk(#[trigger] now.asked()[i])
            == now.said()[i]
}

/// `disk` tells what the driver answered between `old` and `now`: the function of the driver
/// serves it, or it gives for each step that was asked for what the driver said to it. The
/// second holds of a driver whatever it is, as long as it did not say two things to one step.
pub open spec fn follows<D: Fn(Action) -> Option<Vec<String>>>(
    disk: Disk,
    old: Driver<D>,
    now: Driver<D>,
) -> bool {
    serving(old.run(), disk) || agrees(disk, old, now)
}

/// Whether `now` is the driver `old` after further steps: it is the same function, and what
/// it was asked for and what it said begin with what `old` was asked for and said.
pub open spec fn extends<D: Fn(Action) -> Option<Vec<String>>>(
    old: Driver<D>,
    now: Driver<D>,
) -> bool {
    &&& now.run() == old.run()
    &&& old.asked().len() <= now.asked().len()
    &&& now.asked().subrange(0, old.asked().len() as int) =~= old.asked()
    &&& old.said().len() <= now.said().len()
    &&& now.said().subrange(0, old.said().len() as int) =~= old.said()
    &&& now.said().len() - old.said().len() == now.asked().len() - old.asked().len()
}

/// Whether `now` is the driver `old` after it was asked for `steps`, in their order, and for
/// nothing else.
pub open spec fn asks<D: Fn(Action) -> Option<Vec<String>>>(
    old: Driver<D>,
    now: Driver<D>,
    steps: Seq<Step>,
) -> bool {
    extends(old, now) && now.asked() =~= old.asked() + steps
}

/// Whether `now` is the driver `old` after it was asked for the one step `step`, and for
/// nothing else; what it said to the step is the last thing that it said.
pub open spec fn asks_once<D: Fn(Action) -> Option<Vec<String>>>(
    old: Driver<D>,
    now: Driver<D>,
    step: Step,
) -> bool {
    &&& asks(old, now, seq![step])
    &&& now.said().len() == old.said().len() + 1
    &&& now.said().drop_last() =~= old.said()
}

/// Whether `now` is the driver `old` after it was asked for the one step `step`, and what it
/// said to the step is what every disk gives for it that tells what the driver answered.
pub open spec fn heard<D: Fn(Action) -> Option<Vec<String>>>(
    old: Driver<D>,
    now: Driver<D>,
    step: Step,
) -> bool {
    &&& asks_once(old, now, step)
    &&& (forall|disk: Disk| #[trigger] follows(disk, old, now) ==> now.said().last() == disk(step))
}

/// A disk that tells what the driver answered over a run of steps tells what it answered
/// over every part of the run.
pub proof fn lemma_follows_part<D: Fn(Action) -> Option<Vec<String>>>(
    disk: Disk,
    old: Driver<D>,
    from: Driver<D>,
    to: Driver<D>,
    now: Driver<D>,
)
    requires
        follows(disk, old, now),
        extends(old, from),
        extends(from, to),
        extends(to, now),
        old.said().len() == old.asked().len(),
    ensures
        follows(disk, from, to),
{
    if !serving(old.run(), disk) {
        assert forall|i: int| from.asked().len() <= i < to.asked().len() implies disk(
            #[trigger] to.asked()[i],
        ) == to.said()[i] by {
            assert(now.asked().subrange(0, to.asked().len() as int)[i] == now.asked()[i]);
            assert(now.said().subrange(0, to.said().len() as int)[i] == now.said()[i]);
            assert(disk(now.asked()[i]) == now.said()[i]);
        }
    }
}

/// Whether `i` is the place of the step `s` among the steps that the driver was asked for
/// between `old` and `now`.
pub open spec fn asked_at<D: Fn(Action) -> Option<Vec<String>>>(
    old: Driver<D>,
    now: Driver<D>,
    s: Step,
    i: int,
) -> bool {
    old.asked().len() <= i < now.asked().len() && now.asked()[i] == s
}

/// Whether the driver said one thing to a step whenever it was asked for that step between
/// `old` and `now`.
pub open spec fn steady<D: Fn(Action) -> Option<Vec<String>>>(
    old: Driver<D>,
    now: Driver<D>,
) -> bool {
    forall|s: Step, i: int, j: int|
        #[trigger] asked_at(old, now, s, i) && #[trigger] asked_at(old, now, s, j)
            ==> now.said()[i] == now.said()[j]
}

/// The disk that gives for each step what the driver said to it between `old` and `now`, and
/// nothing for a step that it was not asked for.
pub open spec fn told<D: Fn(Action) -> Option<Vec<String>>>(
    old: Driver<D>,
    now: Driver<D>,
) -> Disk {
    |s: Step|
        if exists|i: int| asked_at(old, now, s, i) {
            now.said()[choose|i: int| asked_at(old, now, s, i)]
        } else {
            None
        }
}

/// Every driver that said one thing to each step has a disk that tells what it answered:
/// what is stated of a call for the disks that tell what the driver answered holds of every
/// call in which the driver did not say two things to one step.
pub proof fn law_steady_driver_is_told<D: Fn(Action) -> Option<Vec<String>>>(
    old: Driver<D>,
    now: Driver<D>,
)
    requires
        steady(old, now),
    ensures
        follows(told(old, now), old, now),
{
    let disk = told(old, now);
    assert forall|i: int| old.asked().len() <= i < now.asked().len() implies disk(
        #[trigger] now.asked()[i],
    ) == now.said()[i] by {
        let s = now.asked()[i];
        assert(asked_at(old, now, s, i));
        let j = choose|j: int| asked_at(old, now, s, j);
        assert(asked_at(old, now, s, j));
    }
}

/// Whether a step that writes went through.
pub fn done(r: &Option<Vec<String>>) -> (b: bool)
    ensures
        b == (answer(*r) is Some),
{
    r.is_some()
}

/// A file name under a directory: the directory, a `/` unless the directory's name is empty or
/// ends with one, and the name.
pub open spec fn file_in(root: Seq<char>, name: Seq<char>) -> Seq<char> {
    if root.len() == 0 || root.last() == '/' {
        root + name
    } else {
        root + seq!['/'] + name
    }
}

/// The path of a file in a directory.
pub fn join_path(root: &str, name: &str) -> (r: String)
    ensures
        r@ == file_in(root@, name@),
{
    let n = root.unicode_len();
    let mut path = root.to_owned();
    if n > 0 && root.get_char(n - 1) != '/' {
        proof {
            reveal_strlit("/");
            assert("/"@ =~= seq!['/']);
        }
        path.append("/");
    }
    path.append(name);
    path
}

/// A name with an ending.
pub fn with_ending(name: &str, ending: &str) -> (r: String)
    ensures
        r@ == name@ + ending@,
{
    let mut file = name.to_owned();
    file.append(ending);
    file
}

} // verus!

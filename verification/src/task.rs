//! A task: name, description, due date, and an ordered checklist of steps.
//! The step list is never empty: while a task has no real step it holds one
//! sentinel placeholder step, so that "all steps complete" is always a
//! well-defined query.

use vstd::prelude::*;

use vstd::string::StringExecFns;

use crate::date::Date;
use crate::errors::IndexError;

verus! {

/// The placeholder step a task holds while it has no real step.
pub open spec fn sentinel_step() -> (bool, Seq<char>) {
    (false, "Completed?"@)
}

/// The mathematical model of a task.
pub struct TaskV {
    pub name: Seq<char>,
    pub desc: Seq<char>,
    pub due: Date,
    pub steps: Seq<(bool, Seq<char>)>,
}

/// A task in a course.
#[derive(Clone, Debug, PartialEq)]
pub struct Task {
    pub name: String,
    pub desc: String,
    /// When the task is due.
    pub due: Date,
    /// The steps of the task: (is it completed, name of the step).
    pub steps: Vec<(bool, String)>,
}

impl View for Task {
    type V = TaskV;

    open spec fn view(&self) -> TaskV {
        TaskV {
            name: self.name@,
            desc: self.desc@,
            due: self.due,
            steps: self.steps@.map_values(|p: (bool, String)| (p.0, p.1@)),
        }
    }
}

/// Every step of the list is marked complete.
pub open spec fn all_steps_complete(steps: Seq<(bool, Seq<char>)>) -> bool {
    forall|i: int| 0 <= i < steps.len() ==> (#[trigger] steps[i]).0
}

impl Task {
    /// A fresh task carries exactly the one sentinel step.
    pub fn new(name: &str, desc: &str, due: Date) -> (t: Task)
        ensures
            t@.name == name@,
            t@.desc == desc@,
            t@.due == due,
            t@.steps == seq![sentinel_step()],
    {
        let mut steps: Vec<(bool, String)> = Vec::new();
        steps.push((false, String::from_str("Completed?")));
        let t = Task { name: String::from_str(name), desc: String::from_str(desc), due, steps };
        proof {
            assert(t@.steps =~= seq![sentinel_step()]);
        }
        t
    }

    /// Whether every step is complete. With only the sentinel step present
    /// this is false, since the sentinel is never marked complete on
    /// creation.
    pub fn is_complete(&self) -> (r: bool)
        ensures
            r == all_steps_complete(self@.steps),
    {
        let mut i: usize = 0;
        let n = self.steps.len();
        while i < n
            invariant
                n == self.steps@.len(),
                forall|w: int| 0 <= w < i as int ==> (#[trigger] self@.steps[w]).0,
            decreases n - i,
        {
            if !self.steps[i].0 {
                proof {
                    assert(!(self@.steps[i as int]).0);
                }
                return false;
            }
            i += 1;
        }
        true
    }

    /// Flip one step's completed flag. An out-of-range index is a no-op,
    /// tolerating stale indices from a presentation layer.
    pub fn toggle_step(&mut self, index: usize)
        ensures
            index < old(self)@.steps.len() ==> final(self)@.steps == old(self)@.steps.update(
                index as int,
                (!old(self)@.steps[index as int].0, old(self)@.steps[index as int].1),
            ),
            index >= old(self)@.steps.len() ==> *final(self) == *old(self),
            final(self)@.name == old(self)@.name,
            final(self)@.desc == old(self)@.desc,
            final(self)@.due == old(self)@.due,
    {
        if index < self.steps.len() {
            let flag = self.steps[index].0;
            let label = self.steps[index].1.clone();
            self.steps.set(index, (!flag, label));
            proof {
                assert(final(self)@.steps =~= old(self)@.steps.update(
                    index as int,
                    (!old(self)@.steps[index as int].0, old(self)@.steps[index as int].1),
                ));
            }
        }
    }

    /// Append a step, incomplete by default. When the list is exactly the
    /// one sentinel step, the sentinel makes way for the first real step.
    pub fn add_step(&mut self, desc: &str)
        requires
            old(self)@.steps.len() > 0,
        ensures
            old(self)@.steps == seq![sentinel_step()] ==> final(self)@.steps == seq![
                (false, desc@),
            ],
            old(self)@.steps != seq![sentinel_step()] ==> final(self)@.steps == old(
                self,
            )@.steps.push((false, desc@)),
            final(self)@.name == old(self)@.name,
            final(self)@.desc == old(self)@.desc,
            final(self)@.due == old(self)@.due,
    {
        proof {
            if self.steps@.len() == 1 && self@.steps[0] == sentinel_step() {
                assert(self@.steps =~= seq![sentinel_step()]);
            }
        }
        let sentinel = String::from_str("Completed?");
        if self.steps.len() == 1 && !self.steps[0].0 && self.steps[0].1 == sentinel {
            self.steps.remove(0);
        }
        self.steps.push((false, String::from_str(desc)));
        proof {
            if old(self)@.steps == seq![sentinel_step()] {
                assert(final(self)@.steps =~= seq![(false, desc@)]);
            } else {
                assert(final(self)@.steps =~= old(self)@.steps.push((false, desc@)));
            }
        }
    }

    /// Remove the step at `index`; when the last step goes, the sentinel
    /// comes back, keeping the list non-empty.
    pub fn rm_step(&mut self, index: usize) -> (r: Result<(), IndexError>)
        ensures
            r is Ok <==> index < old(self)@.steps.len(),
            r is Ok ==> final(self)@.steps == (if old(self)@.steps.len() == 1 {
                seq![sentinel_step()]
            } else {
                old(self)@.steps.remove(index as int)
            }),
            r is Err ==> *final(self) == *old(self),
            final(self)@.name == old(self)@.name,
            final(self)@.desc == old(self)@.desc,
            final(self)@.due == old(self)@.due,
    {
        if index < self.steps.len() {
            self.steps.remove(index);
            if self.steps.len() == 0 {
                self.steps.push((false, String::from_str("Completed?")));
                proof {
                    assert(final(self)@.steps =~= seq![sentinel_step()]);
                }
            } else {
                proof {
                    assert(final(self)@.steps =~= old(self)@.steps.remove(index as int));
                }
            }
            Ok(())
        } else {
            Err(IndexError)
        }
    }

    /// A short status text for a presentation layer.
    pub fn is_complete_str(&self) -> (r: &'static str)
        ensures
            all_steps_complete(self@.steps) ==> r@ == "Done"@,
            !all_steps_complete(self@.steps) ==> r@ == "Not Done"@,
    {
        if self.is_complete() {
            "Done"
        } else {
            "Not Done"
        }
    }
}

} // verus!

//! Timing bookkeeping, held in a value that the caller passes around: whether timings are
//! printed, how deep the open timed scopes are nested, and the total time spent under each label.
//! Reading the clock and printing are left to the caller; this only decides what to print.
use vstd::prelude::*;
use vstd::string::StringExecFns;

verus! {

/// The indentation of one nesting level.
pub const TAB_SEQ: &'static str = "    ";

/// `s` written `n` times.
pub open spec fn repeat_spec(s: Seq<char>, n: nat) -> Seq<char>
    decreases n,
{
    if n == 0 {
        Seq::empty()
    } else {
        repeat_spec(s, (n - 1) as nat) + s
    }
}

/// The texts of `items`, with `sep` between each two neighbours.
pub open spec fn join_spec(items: Seq<Seq<char>>, sep: Seq<char>) -> Seq<char>
    decreases items.len(),
{
    if items.len() == 0 {
        Seq::empty()
    } else if items.len() == 1 {
        items[0]
    } else {
        join_spec(items.drop_last(), sep) + sep + items.last()
    }
}

/// A text repeated a number of times.
#[derive(Debug, Clone)]
pub struct FmtRepeat<'a> {
    pub seq: &'a str,
    pub count: usize,
}

impl<'a> FmtRepeat<'a> {
    pub fn to_string(&self) -> (r: String)
        ensures
            r@ == repeat_spec(self.seq@, self.count as nat),
    {
        let mut out = String::new();
        let mut i: usize = 0;
        while i < self.count
            invariant
                i <= self.count,
                out@ == repeat_spec(self.seq@, i as nat),
            decreases self.count - i,
        {
            out.append(self.seq);
            i = i + 1;
        }
        out
    }
}

/// A list of texts written one after the other, with a separator between neighbours.
#[derive(Debug, Clone)]
pub struct FmtDisplayIter<'a> {
    pub iter: &'a [String],
    pub sep: &'a str,
}

impl<'a> FmtDisplayIter<'a> {
    pub open spec fn items(&self) -> Seq<Seq<char>> {
        self.iter@.map_values(|s: String| s@)
    }

    pub fn to_string(&self) -> (r: String)
        ensures
            r@ == join_spec(self.items(), self.sep@),
    {
        let mut out = String::new();
        let mut i: usize = 0;
        while i < self.iter.len()
            invariant
                i <= self.iter@.len(),
                out@ == join_spec(self.items().take(i as int), self.sep@),
            decreases self.iter@.len() - i,
        {
            if i > 0 {
                out.append(self.sep);
            }
            out.append(self.iter[i].as_str());
            proof {
                let next = self.items().take(i + 1);
                assert(next.drop_last() =~= self.items().take(i as int));
                assert(next.last() == self.iter@[i as int]@);
                if i == 0 {
                    assert(self.items().take(0) =~= Seq::<Seq<char>>::empty());
                }
            }
            i = i + 1;
        }
        assert(self.items().take(self.iter@.len() as int) =~= self.items());
        out
    }
}

/// Timing state: whether timings are printed, the nesting depth of open timed scopes, and the
/// total time recorded under each label, in the order the labels first came.
#[derive(Debug, Clone)]
pub struct Timer {
    print: bool,
    indent: usize,
    accumulator: Vec<(String, u64)>,
}

/// The labels of `entries` are distinct.
pub open spec fn labels_unique(entries: Seq<(Seq<char>, u64)>) -> bool {
    forall|i: int, j: int|
        0 <= i < entries.len() && 0 <= j < entries.len() && i != j ==> #[trigger] entries[i].0
            != #[trigger] entries[j].0
}

impl Timer {
    pub closed spec fn printing(&self) -> bool {
        self.print
    }

    pub closed spec fn depth(&self) -> nat {
        self.indent as nat
    }

    /// The labels with their total times, in the order the labels first came.
    pub closed spec fn totals(&self) -> Seq<(Seq<char>, u64)> {
        self.accumulator@.map_values(|e: (String, u64)| (e.0@, e.1))
    }

    pub open spec fn wf(&self) -> bool {
        labels_unique(self.totals())
    }

    /// No printing, no open scope, nothing recorded.
    pub fn new() -> (r: Timer)
        ensures
            r.wf(),
            !r.printing(),
            r.depth() == 0,
            r.totals().len() == 0,
    {
        Timer { print: false, indent: 0, accumulator: Vec::new() }
    }

    pub fn enable_printing(&mut self)
        ensures
            final(self).printing(),
            final(self).depth() == old(self).depth(),
            final(self).totals() == old(self).totals(),
    {
        self.print = true;
    }

    pub fn disable_printing(&mut self)
        ensures
            !final(self).printing(),
            final(self).depth() == old(self).depth(),
            final(self).totals() == old(self).totals(),
    {
        self.print = false;
    }

    pub fn is_printing(&self) -> (r: bool)
        ensures
            r == self.printing(),
    {
        self.print
    }

    /// Opens a timed scope. While printing, returns the header line to print, indented by the
    /// current depth, and goes one level deeper.
    pub fn start(&mut self, label: &str) -> (r: Option<String>)
        ensures
            final(self).printing() == old(self).printing(),
            final(self).totals() == old(self).totals(),
            old(self).printing() ==> r is Some && r->0@ == repeat_spec(TAB_SEQ@, old(self).depth())
                + "+ "@ + label@,
            old(self).printing() ==> final(self).depth() == (if old(self).depth() < usize::MAX {
                old(self).depth() + 1
            } else {
                old(self).depth()
            }),
            !old(self).printing() ==> r is None && final(self).depth() == old(self).depth(),
    {
        if self.print {
            let mut line = FmtRepeat { seq: TAB_SEQ, count: self.indent }.to_string();
            line.append("+ ");
            line.append(label);
            self.indent = self.indent.saturating_add(1);
            Some(line)
        } else {
            None
        }
    }

    /// Adds `nanos` to the total of `label`, saturating, or records it as a new label's first
    /// total.
    pub fn record(&mut self, label: &str, nanos: u64)
        requires
            old(self).wf(),
        ensures
            final(self).wf(),
            final(self).printing() == old(self).printing(),
            final(self).depth() == old(self).depth(),
            (exists|k: int| 0 <= k < old(self).totals().len() && old(self).totals()[k].0 == label@)
                ==> final(self).totals().len() == old(self).totals().len() && forall|j: int|
                0 <= j < old(self).totals().len() ==> #[trigger] final(self).totals()[j] == (if old(
                self,
            ).totals()[j].0 == label@ {
                (label@, old(self).totals()[j].1.saturating_add(nanos))
            } else {
                old(self).totals()[j]
            }),
            !(exists|k: int| 0 <= k < old(self).totals().len() && old(self).totals()[k].0 == label@)
                ==> final(self).totals() == old(self).totals().push((label@, nanos)),
    {
        let key = String::from_str(label);
        let n = self.accumulator.len();
        let mut k: usize = 0;
        while k < n
            invariant
                k <= n,
                n == self.accumulator@.len(),
                *self == *old(self),
                key@ == label@,
                self.wf(),
                forall|j: int| 0 <= j < k ==> self.accumulator@[j].0@ != key@,
            decreases n - k,
        {
            if self.accumulator[k].0 == key {
                let total = self.accumulator[k].1.saturating_add(nanos);
                let ghost before = self.totals();
                assert(before[k as int].0 == label@);
                self.accumulator.set(k, (key, total));
                proof {
                    assert forall|j: int| 0 <= j < before.len() implies #[trigger] self.totals()[j]
                        == (if before[j].0 == label@ {
                        (label@, before[j].1.saturating_add(nanos))
                    } else {
                        before[j]
                    }) by {
                        if j != k && before[j].0 == label@ {
                            assert(before[j].0 != before[k as int].0);
                        }
                    }
                    assert forall|i: int, j: int|
                        0 <= i < self.totals().len() && 0 <= j < self.totals().len() && i
                            != j implies #[trigger] self.totals()[i].0 != #[trigger] self.totals()[j].0 by {
                        assert(self.totals()[i].0 == before[i].0);
                        assert(self.totals()[j].0 == before[j].0);
                    }
                }
                return;
            }
            k = k + 1;
        }
        let ghost before = self.totals();
        self.accumulator.push((key, nanos));
        proof {
            assert(self.totals() =~= before.push((label@, nanos)));
            assert forall|i: int, j: int|
                0 <= i < self.totals().len() && 0 <= j < self.totals().len() && i
                    != j implies #[trigger] self.totals()[i].0 != #[trigger] self.totals()[j].0 by {
                if i < before.len() && j < before.len() {
                    assert(self.totals()[i].0 == before[i].0);
                    assert(self.totals()[j].0 == before[j].0);
                }
            }
        }
    }

    /// Closes a timed scope under `label` that took `nanos`: records the time and, while
    /// printing, goes one level up and returns the indentation of the closing line.
    pub fn finish(&mut self, label: &str, nanos: u64) -> (r: Option<String>)
        requires
            old(self).wf(),
        ensures
            final(self).wf(),
            final(self).printing() == old(self).printing(),
            old(self).printing() ==> final(self).depth() == (if old(self).depth() > 0 {
                old(self).depth() - 1
            } else {
                0
            }) && r is Some && r->0@ == repeat_spec(TAB_SEQ@, final(self).depth()),
            !old(self).printing() ==> r is None && final(self).depth() == old(self).depth(),
    {
        self.record(label, nanos);
        if self.print {
            self.indent = self.indent.saturating_sub(1);
            Some(FmtRepeat { seq: TAB_SEQ, count: self.indent }.to_string())
        } else {
            None
        }
    }

    /// The labels with their total times, in the order the labels first came.
    pub fn summary(&self) -> (r: &Vec<(String, u64)>)
        ensures
            r@.map_values(|e: (String, u64)| (e.0@, e.1)) == self.totals(),
    {
        &self.accumulator
    }
}

} // verus!

//! State of the earlier report menu: a list with a selection, and the reports chosen.
use vstd::prelude::*;
use crate::strings::string_from;

verus! {

/// The reports the earlier menu offers, in order.
pub fn reports() -> (r: Vec<String>)
    ensures
        r@.len() == 9,
{
    let mut v: Vec<String> = Vec::new();
    v.push(string_from("1. CSV: Account Sums"));
    v.push(string_from("2. CSV: Account Sums (Non-zero only)"));
    v.push(string_from("3. CSV: Account Sums (Orig. basis vs like-kind basis)"));
    v.push(string_from("4. CSV: Transactions by movement (every movement)"));
    v.push(string_from("5. CSV: Transactions by movement (summarized by long-term/short-term)"));
    v.push(string_from("6. CSV: Transactions by movement (every movement, w/ orig. and like-kind basis"));
    v.push(string_from("7. TXT: Accounts by lot (every movement)"));
    v.push(string_from("8. TXT: Accounts by lot (every lot balance)"));
    v.push(string_from("9. TXT: Accounts by lot (every non-zero lot balance)"));
    v
}

/// A list of items with one selected (by index).
pub struct ListState<I> {
    pub items: Vec<I>,
    pub selected: usize,
}

impl<I> ListState<I> {
    /// The list, with its first item selected.
    pub fn new(items: Vec<I>) -> (r: ListState<I>)
        ensures
            r.items@ == items@,
            r.selected == 0,
    {
        ListState { items, selected: 0 }
    }

    /// Selects the item before the selected one; the first stays selected.
    pub fn select_previous(&mut self)
        ensures
            final(self).items@ == old(self).items@,
            final(self).selected == (if old(self).selected > 0 {
                old(self).selected - 1
            } else {
                0int
            }),
    {
        if self.selected > 0 {
            self.selected = self.selected - 1;
        }
    }

    /// Selects the item after the selected one; the last stays selected.
    pub fn select_next(&mut self)
        requires
            old(self).items@.len() > 0,
        ensures
            final(self).items@ == old(self).items@,
            final(self).selected == (if old(self).selected < old(self).items@.len() - 1 {
                old(self).selected + 1
            } else {
                old(self).selected as int
            }),
    {
        if self.selected < self.items.len() - 1 {
            self.selected = self.selected + 1;
        }
    }
}

/// The earlier report menu: the reports, which one is selected, and which are to be
/// printed.
pub struct PrintWindow {
    pub title: String,
    pub should_quit: bool,
    pub tasks: ListState<String>,
    pub to_print: Vec<usize>,
}

/// Sorted, each element smaller than the next.
pub open spec fn strictly_increasing(s: Seq<usize>) -> bool {
    forall|i: int, j: int| 0 <= i < j < s.len() ==> s[i] < s[j]
}

/// Sorted, each element no larger than the next.
pub open spec fn sorted(s: Seq<usize>) -> bool {
    forall|i: int, j: int| 0 <= i <= j < s.len() ==> s[i] <= s[j]
}

impl PrintWindow {
    pub fn new(title: String) -> (r: PrintWindow)
        ensures
            r.title@ == title@,
            !r.should_quit,
            r.tasks.items@.len() == 9,
            r.tasks.selected == 0,
            r.to_print@.len() == 0,
    {
        PrintWindow {
            title,
            should_quit: false,
            tasks: ListState::new(reports()),
            to_print: Vec::new(),
        }
    }

    pub fn on_up(&mut self)
        ensures
            final(self).tasks.items@ == old(self).tasks.items@,
            final(self).tasks.selected == (if old(self).tasks.selected > 0 {
                old(self).tasks.selected - 1
            } else {
                0int
            }),
            final(self).to_print@ == old(self).to_print@,
            final(self).should_quit == old(self).should_quit,
    {
        self.tasks.select_previous();
    }

    pub fn on_down(&mut self)
        requires
            old(self).tasks.items@.len() > 0,
        ensures
            final(self).tasks.items@ == old(self).tasks.items@,
            final(self).tasks.selected == (if old(self).tasks.selected
                < old(self).tasks.items@.len() - 1 {
                old(self).tasks.selected + 1
            } else {
                old(self).tasks.selected as int
            }),
            final(self).to_print@ == old(self).to_print@,
            final(self).should_quit == old(self).should_quit,
    {
        self.tasks.select_next();
    }

    /// `q` quits with nothing to print; `p` quits with the chosen reports in order and
    /// each once; `x` chooses the selected report; any other key does nothing.
    pub fn on_key(&mut self, c: char)
        ensures
            final(self).tasks.items@ == old(self).tasks.items@,
            final(self).tasks.selected == old(self).tasks.selected,
            c == 'q' ==> final(self).to_print@.len() == 0 && final(self).should_quit,
            c == 'p' ==> final(self).should_quit && strictly_increasing(final(self).to_print@)
                && final(self).to_print@.to_set() == old(self).to_print@.to_set(),
            c == 'x' ==> final(self).to_print@ == old(self).to_print@.push(old(self).tasks.selected)
                && final(self).should_quit == old(self).should_quit,
            c != 'q' && c != 'p' && c != 'x' ==> final(self).to_print@ == old(self).to_print@
                && final(self).should_quit == old(self).should_quit,
    {
        if c == 'q' {
            self.to_print = Vec::new();
            self.should_quit = true;
        } else if c == 'p' {
            Self::change_vec_to_chrono_order_and_dedup(&mut self.to_print);
            self.should_quit = true;
        } else if c == 'x' {
            self.to_print.push(self.tasks.selected);
        }
    }

    /// Sorts the report numbers and drops repeats.
    pub fn change_vec_to_chrono_order_and_dedup(vec: &mut Vec<usize>)
        ensures
            strictly_increasing(final(vec)@),
            final(vec)@.to_set() == old(vec)@.to_set(),
    {
        let ghost original = vec@;
        bubble_sort(vec);
        proof {
            lemma_multiset_to_set(vec@, original);
        }
        dedup_sorted(vec);
    }
}

/// Sorts in place by swapping neighbours that are out of order, one pass per element.
pub fn bubble_sort(vec: &mut Vec<usize>)
    ensures
        sorted(final(vec)@),
        final(vec)@.to_multiset() == old(vec)@.to_multiset(),
        final(vec)@.len() == old(vec)@.len(),
{
    let length = vec.len();
    let mut pass: usize = 0;
    proof {
        assert forall|i: int, j: int| length - pass <= i <= j < length implies vec@[i] <= vec@[j] by {}
    }
    while pass < length
        invariant
            vec@.len() == length,
            pass <= length,
            vec@.to_multiset() == old(vec)@.to_multiset(),
            // the last `pass` elements are in place: sorted, and no smaller than any before
            forall|i: int, j: int| length - pass <= i <= j < length ==> vec@[i] <= vec@[j],
            forall|i: int, j: int|
                0 <= i < length - pass <= j < length ==> vec@[i] <= vec@[j],
        decreases length - pass,
    {
        let mut j: usize = 0;
        while j + 1 < length - pass
            invariant
                vec@.len() == length,
                pass < length,
                j < length - pass,
                vec@.to_multiset() == old(vec)@.to_multiset(),
                forall|a: int, b: int| length - pass <= a <= b < length ==> vec@[a] <= vec@[b],
                forall|a: int, b: int|
                    0 <= a < length - pass <= b < length ==> vec@[a] <= vec@[b],
                // the largest of the first j + 1 sits at j
                forall|a: int| 0 <= a <= j ==> vec@[a] <= vec@[j as int],
            decreases length - pass - j,
        {
            if vec[j] > vec[j + 1] {
                let ghost before = vec@;
                let tmp = vec[j];
                let next = vec[j + 1];
                vec.set(j, next);
                vec.set(j + 1, tmp);
                proof {
                    assert(vec@ =~= before.update(j as int, next).update(j + 1, tmp));
                    lemma_swap_multiset(before, j as int);
                }
            }
            j = j + 1;
        }
        proof {
            // the element now at length - pass - 1 is the largest of the unsorted part
            assert forall|a: int, b: int|
                length - (pass + 1) <= a <= b < length implies vec@[a] <= vec@[b] by {}
        }
        pass = pass + 1;
    }
    // The inner loop does not run for the last pass, hence the version without a
    // comparison for the first position: sorted overall.
}

/// Swapping two neighbours keeps the multiset of elements.
proof fn lemma_swap_multiset(s: Seq<usize>, j: int)
    requires
        0 <= j < j + 1 < s.len(),
    ensures
        s.update(j, s[j + 1]).update(j + 1, s[j]).to_multiset() == s.to_multiset(),
{
    broadcast use vstd::multiset::group_multiset_axioms;

    let u = s.update(j, s[j + 1]);
    let t = u.update(j + 1, s[j]);
    vstd::seq_lib::to_multiset_update(s, j, s[j + 1]);
    vstd::seq_lib::to_multiset_update(u, j + 1, s[j]);
    assert(u[j + 1] == s[j + 1]);
    vstd::seq_lib::to_multiset_contains(s, s[j]);
    assert(s.contains(s[j]));
    let c = s.to_multiset();
    let y = c.insert(s[j + 1]).remove(s[j]);
    assert(y.count(s[j + 1]) > 0 || s[j] != s[j + 1]);
    assert forall|x: usize| t.to_multiset().count(x) == c.count(x) by {}
    assert(t.to_multiset() =~= s.to_multiset());
}

/// Sequences with the same elements, counted, have the same elements.
proof fn lemma_multiset_to_set(s: Seq<usize>, t: Seq<usize>)
    requires
        s.to_multiset() == t.to_multiset(),
    ensures
        s.to_set() == t.to_set(),
{
    assert forall|x: usize| s.to_set().contains(x) == t.to_set().contains(x) by {
        vstd::seq_lib::to_multiset_contains(s, x);
        vstd::seq_lib::to_multiset_contains(t, x);
    }
    assert(s.to_set() =~= t.to_set());
}

/// Drops repeats from a sorted vector, leaving each element once.
pub fn dedup_sorted(vec: &mut Vec<usize>)
    requires
        sorted(old(vec)@),
    ensures
        strictly_increasing(final(vec)@),
        final(vec)@.to_set() == old(vec)@.to_set(),
{
    let mut out: Vec<usize> = Vec::new();
    let mut i: usize = 0;
    while i < vec.len()
        invariant
            i <= vec@.len(),
            vec@ == old(vec)@,
            sorted(vec@),
            strictly_increasing(out@),
            out@.to_set() == vec@.take(i as int).to_set(),
            out@.len() > 0 ==> i > 0 && out@.last() == vec@[i - 1],
        decreases vec@.len() - i,
    {
        let x = vec[i];
        let ghost before = out@;
        if out.len() == 0 || out[out.len() - 1] != x {
            out.push(x);
        }
        proof {
            assert(vec@.take(i + 1) =~= vec@.take(i as int).push(x));
            vec@.take(i as int).lemma_push_to_set_commute(x);
            before.lemma_push_to_set_commute(x);
            if out@.len() == before.len() {
                assert(before.last() == x);
                assert(before[before.len() - 1] == x);
                assert(before.to_set().contains(x));
                assert(out@.to_set() =~= vec@.take(i + 1).to_set());
            } else {
                assert(out@ == before.push(x));
                assert(out@.to_set() =~= vec@.take(i + 1).to_set());
            }
        }
        i = i + 1;
    }
    proof {
        assert(vec@.take(vec@.len() as int) =~= vec@);
    }
    *vec = out;
}

} // verus!

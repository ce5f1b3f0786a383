//! State of the report menu: the reports, which one is selected, and the reports chosen
//! for printing (by number and by title, kept in step).
use vstd::prelude::*;
use crate::strings::{str_eq, string_from};

verus! {

/// The reports the menu offers, in order.
pub fn reports() -> (r: Vec<String>)
    ensures
        r@.len() == 11,
        forall|i: int, j: int| 0 <= i < j < 11 ==> r@[i]@ != r@[j]@,
{
    let mut v: Vec<String> = Vec::new();
    let r1 = "1. CSV: Account Sums";
    let r2 = "2. CSV: Account Sums (Non-zero only)";
    let r3 = "3. CSV: Account Sums (Orig. basis vs like-kind basis)";
    let r4 = "4. CSV: Transactions by movement (every movement)";
    let r5 = "5. CSV: Transactions by movement (summarized by long-term/short-term)";
    let r6 = "6. CSV: Transactions by movement (every movement, w/ orig. and like-kind basis";
    let r7 = "7. CSV: Transactions summary by LT/ST for Form 8949";
    let r8 = "8. TXT: Accounts by lot (every movement)";
    let r9 = "9. TXT: Accounts by lot (every lot balance)";
    let r10 = "10. TXT: Accounts by lot (every non-zero lot balance)";
    let r11 = "11. TXT: Bookkeeping journal entries";
    proof {
        reveal_strlit("1. CSV: Account Sums");
        reveal_strlit("2. CSV: Account Sums (Non-zero only)");
        reveal_strlit("3. CSV: Account Sums (Orig. basis vs like-kind basis)");
        reveal_strlit("4. CSV: Transactions by movement (every movement)");
        reveal_strlit("5. CSV: Transactions by movement (summarized by long-term/short-term)");
        reveal_strlit(
            "6. CSV: Transactions by movement (every movement, w/ orig. and like-kind basis",
        );
        reveal_strlit("7. CSV: Transactions summary by LT/ST for Form 8949");
        reveal_strlit("8. TXT: Accounts by lot (every movement)");
        reveal_strlit("9. TXT: Accounts by lot (every lot balance)");
        reveal_strlit("10. TXT: Accounts by lot (every non-zero lot balance)");
        reveal_strlit("11. TXT: Bookkeeping journal entries");
    }
    v.push(string_from(r1));
    v.push(string_from(r2));
    v.push(string_from(r3));
    v.push(string_from(r4));
    v.push(string_from(r5));
    v.push(string_from(r6));
    v.push(string_from(r7));
    v.push(string_from(r8));
    v.push(string_from(r9));
    v.push(string_from(r10));
    v.push(string_from(r11));
    proof {
        let s = v@;
        assert forall|i: int, j: int| 0 <= i < j < 11 implies s[i]@ != s[j]@ by {
            assert(s[i]@[0] != s[j]@[0] || s[i]@[1] != s[j]@[1]);
        }
    }
    v
}

/// Which item of a list is selected, if any.
pub struct ListState {
    pub selected: Option<usize>,
}

impl ListState {
    pub fn selected(&self) -> (r: Option<usize>)
        ensures
            r == self.selected,
    {
        self.selected
    }

    pub fn select(&mut self, index: Option<usize>)
        ensures
            final(self).selected == index,
    {
        self.selected = index;
    }
}

/// A list of items with a selection that wraps around.
pub struct StatefulList<I> {
    pub items: Vec<I>,
    pub state: ListState,
}

/// Where moving the selection up leads: from the first item to the last.
pub open spec fn previous_selection(selected: Option<usize>, len: nat) -> Option<usize> {
    match selected {
        Some(i) => if i == 0 {
            Some((len - 1) as usize)
        } else {
            Some((i - 1) as usize)
        },
        None => Some(0),
    }
}

/// Where moving the selection down leads: from the last item to the first.
pub open spec fn next_selection(selected: Option<usize>, len: nat) -> Option<usize> {
    match selected {
        Some(i) => if i >= len - 1 {
            Some(0)
        } else {
            Some((i + 1) as usize)
        },
        None => Some(0),
    }
}

impl<T> StatefulList<T> {
    /// The list, with nothing selected.
    pub fn new(items: Vec<T>) -> (r: StatefulList<T>)
        ensures
            r.items@ == items@,
            r.state.selected is None,
    {
        StatefulList { items, state: ListState { selected: None } }
    }

    pub fn select_previous(&mut self)
        requires
            old(self).items@.len() > 0,
        ensures
            final(self).items@ == old(self).items@,
            final(self).state.selected == previous_selection(
                old(self).state.selected,
                old(self).items@.len(),
            ),
    {
        let i = match self.state.selected() {
            Some(i) => {
                if i == 0 {
                    self.items.len() - 1
                } else {
                    i - 1
                }
            },
            None => 0,
        };
        self.state.select(Some(i));
    }

    pub fn select_next(&mut self)
        requires
            old(self).items@.len() > 0,
        ensures
            final(self).items@ == old(self).items@,
            final(self).state.selected == next_selection(
                old(self).state.selected,
                old(self).items@.len(),
            ),
    {
        let i = match self.state.selected() {
            Some(i) => {
                if i >= self.items.len() - 1 {
                    0
                } else {
                    i + 1
                }
            },
            None => 0,
        };
        self.state.select(Some(i));
    }
}

/// The report menu.
pub struct PrintWindow {
    pub title: String,
    pub should_quit: bool,
    pub tasks: StatefulList<String>,
    pub to_print_by_idx: Vec<usize>,
    pub to_print_by_title: Vec<String>,
}

/// The reports chosen are in order, each once, and each title is the title of the
/// report of the same position.
pub open spec fn chosen_in_step(
    idx: Seq<usize>,
    titles: Seq<String>,
    items: Seq<String>,
) -> bool {
    &&& idx.len() == titles.len()
    &&& forall|i: int, j: int| 0 <= i < j < idx.len() ==> idx[i] < idx[j]
    &&& forall|i: int| 0 <= i < idx.len() ==> idx[i] < items.len()
    &&& forall|i: int| 0 <= i < idx.len() ==> (#[trigger] titles[i])@ == items[idx[i] as int]@
}

/// A menu as its keys keep it: distinct report titles, a selection among them, and the
/// chosen reports in step.
pub open spec fn menu_wf(w: PrintWindow) -> bool {
    &&& w.tasks.items@.len() > 0
    &&& forall|i: int, j: int|
        0 <= i < j < w.tasks.items@.len() ==> w.tasks.items@[i]@ != w.tasks.items@[j]@
    &&& w.tasks.state.selected matches Some(s) && s < w.tasks.items@.len()
    &&& chosen_in_step(w.to_print_by_idx@, w.to_print_by_title@, w.tasks.items@)
}

impl PrintWindow {
    /// A menu of all reports, the first selected, none chosen.
    pub fn new(title: String) -> (r: PrintWindow)
        ensures
            menu_wf(r),
            r.title@ == title@,
            !r.should_quit,
            r.tasks.items@.len() == 11,
            r.tasks.state.selected == Some(0usize),
            r.to_print_by_idx@.len() == 0,
    {
        let mut tasks = StatefulList::new(reports());
        tasks.state.select(Some(0));
        PrintWindow {
            title,
            should_quit: false,
            tasks,
            to_print_by_idx: Vec::new(),
            to_print_by_title: Vec::new(),
        }
    }

    pub fn on_up(&mut self)
        requires
            menu_wf(*old(self)),
        ensures
            menu_wf(*final(self)),
            final(self).tasks.state.selected == previous_selection(
                old(self).tasks.state.selected,
                old(self).tasks.items@.len(),
            ),
            final(self).to_print_by_idx@ == old(self).to_print_by_idx@,
    {
        self.tasks.select_previous();
    }

    pub fn on_down(&mut self)
        requires
            menu_wf(*old(self)),
        ensures
            menu_wf(*final(self)),
            final(self).tasks.state.selected == next_selection(
                old(self).tasks.state.selected,
                old(self).tasks.items@.len(),
            ),
            final(self).to_print_by_idx@ == old(self).to_print_by_idx@,
    {
        self.tasks.select_next();
    }

    /// `q` quits with nothing to print; `p` quits; `x` chooses the selected report (once)
    /// and moves down; `d` drops the selected report from the chosen ones and moves up.
    /// Every key but `q` keeps the menu well formed.
    pub fn on_key(&mut self, c: char)
        requires
            menu_wf(*old(self)),
        ensures
            c != 'q' ==> menu_wf(*final(self)),
            c == 'q' ==> final(self).should_quit && final(self).to_print_by_idx@.len() == 0,
            c == 'p' ==> final(self).should_quit && final(self).to_print_by_idx@ == old(
                self,
            ).to_print_by_idx@,
            c == 'x' ==> final(self).to_print_by_idx@.to_set() == old(
                self,
            ).to_print_by_idx@.to_set().insert(old(self).tasks.state.selected->0),
            c == 'd' ==> final(self).to_print_by_idx@.to_set() == old(
                self,
            ).to_print_by_idx@.to_set().remove(old(self).tasks.state.selected->0),
            final(self).tasks.items@ == old(self).tasks.items@,
            final(self).title == old(self).title,
            c == 'x' ==> final(self).tasks.state.selected == next_selection(
                old(self).tasks.state.selected,
                old(self).tasks.items@.len(),
            ) && final(self).should_quit == old(self).should_quit,
            c == 'd' ==> final(self).tasks.state.selected == previous_selection(
                old(self).tasks.state.selected,
                old(self).tasks.items@.len(),
            ) && final(self).should_quit == old(self).should_quit,
            c == 'q' || c == 'p' ==> final(self).tasks.state.selected == old(self).tasks.state.selected,
            c != 'q' && c != 'p' && c != 'x' && c != 'd' ==> *final(self) == *old(self),
    {
        if c == 'q' {
            self.to_print_by_idx = Vec::new();
            self.should_quit = true;
        } else if c == 'p' {
            self.should_quit = true;
        } else if c == 'x' {
            let selected = self.tasks.state.selected().unwrap();
            let ghost old_idx = self.to_print_by_idx@;
            let already = contains_usize(&self.to_print_by_idx, selected);
            if !already {
                self.to_print_by_idx.push(selected);
                let t = self.tasks.items[selected].clone();
                self.to_print_by_title.push(t);
            }
            let ghost items = self.tasks.items@;
            proof {
                if already {
                    assert(old_idx.to_set().contains(selected));
                } else {
                    old_idx.lemma_push_to_set_commute(selected);
                }
                assert(self.to_print_by_idx@.to_set() =~= old_idx.to_set().insert(selected));
            }
            Self::change_vecs_to_chrono_order(
                &mut self.to_print_by_idx,
                &mut self.to_print_by_title,
                Ghost(items),
            );
            self.tasks.select_next();
        } else if c == 'd' {
            let selected_idx = self.tasks.state.selected().unwrap();
            let ghost old_idx = self.to_print_by_idx@;
            let ghost old_titles = self.to_print_by_title@;
            let selected_str = self.tasks.items[selected_idx].clone();
            let (new_idx, new_titles) = retain_other(
                &self.to_print_by_idx,
                &self.to_print_by_title,
                selected_idx,
                selected_str.as_str(),
                Ghost(self.tasks.items@),
            );
            self.to_print_by_idx = new_idx;
            self.to_print_by_title = new_titles;
            self.tasks.select_previous();
        }
    }

    /// Sorts the chosen report numbers, moving their titles along with them.
    fn change_vecs_to_chrono_order(
        vec: &mut Vec<usize>,
        strvec: &mut Vec<String>,
        Ghost(items): Ghost<Seq<String>>,
    )
        requires
            old(vec)@.len() == old(strvec)@.len(),
            no_dups(old(vec)@),
            forall|i: int| 0 <= i < old(vec)@.len() ==> old(vec)@[i] < items.len(),
            forall|i: int|
                0 <= i < old(vec)@.len() ==> (#[trigger] old(strvec)@[i])@ == items[old(
                    vec,
                )@[i] as int]@,
        ensures
            chosen_in_step(final(vec)@, final(strvec)@, items),
            final(vec)@.to_set() == old(vec)@.to_set(),
    {
        let length = vec.len();
        let ghost original = vec@;
        let mut pass: usize = 0;
        while pass < length
            invariant
                vec@.len() == length,
                strvec@.len() == length,
                pass <= length,
                no_dups(vec@),
                vec@.to_set() == original.to_set(),
                forall|i: int| 0 <= i < length ==> vec@[i] < items.len(),
                forall|i: int| 0 <= i < length ==> (#[trigger] strvec@[i])@ == items[vec@[i] as int]@,
                forall|i: int, j: int| length - pass <= i <= j < length ==> vec@[i] <= vec@[j],
                forall|i: int, j: int|
                    0 <= i < length - pass <= j < length ==> vec@[i] <= vec@[j],
            decreases length - pass,
        {
            let mut j: usize = 0;
            while j + 1 < length - pass
                invariant
                    vec@.len() == length,
                    strvec@.len() == length,
                    pass < length,
                    j < length - pass,
                    no_dups(vec@),
                    vec@.to_set() == original.to_set(),
                    forall|i: int| 0 <= i < length ==> vec@[i] < items.len(),
                    forall|i: int|
                        0 <= i < length ==> (#[trigger] strvec@[i])@ == items[vec@[i] as int]@,
                    forall|a: int, b: int| length - pass <= a <= b < length ==> vec@[a] <= vec@[b],
                    forall|a: int, b: int|
                        0 <= a < length - pass <= b < length ==> vec@[a] <= vec@[b],
                    forall|a: int| 0 <= a <= j ==> vec@[a] <= vec@[j as int],
                decreases length - pass - j,
            {
                if vec[j] > vec[j + 1] {
                    let ghost before = vec@;
                    let tmp = vec[j];
                    let next = vec[j + 1];
                    vec.set(j, next);
                    vec.set(j + 1, tmp);
                    let stmp = strvec[j].clone();
                    let snext = strvec[j + 1].clone();
                    strvec.set(j, snext);
                    strvec.set(j + 1, stmp);
                    proof {
                        assert(vec@ =~= before.update(j as int, next).update(j + 1, tmp));
                        assert(vec@.to_set() =~= before.to_set()) by {
                            assert forall|x: usize| vec@.contains(x) <==> before.contains(x) by {
                                if vec@.contains(x) {
                                    let k = choose|k: int| 0 <= k < vec@.len() && vec@[k] == x;
                                    if k == j {
                                        assert(before[j + 1] == x);
                                    } else if k == j + 1 {
                                        assert(before[j as int] == x);
                                    } else {
                                        assert(before[k] == x);
                                    }
                                }
                                if before.contains(x) {
                                    let k = choose|k: int| 0 <= k < before.len() && before[k] == x;
                                    if k == j {
                                        assert(vec@[j + 1] == x);
                                    } else if k == j + 1 {
                                        assert(vec@[j as int] == x);
                                    } else {
                                        assert(vec@[k] == x);
                                    }
                                }
                            }
                        }
                    }
                }
                j = j + 1;
            }
            pass = pass + 1;
        }
    }
}

/// No element occurs twice.
pub open spec fn no_dups(s: Seq<usize>) -> bool {
    forall|i: int, j: int| 0 <= i < j < s.len() ==> s[i] != s[j]
}

fn contains_usize(v: &Vec<usize>, x: usize) -> (r: bool)
    ensures
        r == v@.contains(x),
{
    let mut i: usize = 0;
    while i < v.len()
        invariant
            i <= v@.len(),
            forall|k: int| 0 <= k < i ==> v@[k] != x,
        decreases v@.len() - i,
    {
        if v[i] == x {
            return true;
        }
        i = i + 1;
    }
    false
}

/// The chosen reports other than report `selected_idx` (by number, and by title).
fn retain_other(
    idx: &Vec<usize>,
    titles: &Vec<String>,
    selected_idx: usize,
    selected_str: &str,
    Ghost(items): Ghost<Seq<String>>,
) -> (r: (Vec<usize>, Vec<String>))
    requires
        chosen_in_step(idx@, titles@, items),
        selected_idx < items.len(),
        selected_str@ == items[selected_idx as int]@,
        forall|i: int, j: int| 0 <= i < j < items.len() ==> items[i]@ != items[j]@,
    ensures
        chosen_in_step(r.0@, r.1@, items),
        r.0@.to_set() == idx@.to_set().remove(selected_idx),
{
    let mut new_idx: Vec<usize> = Vec::new();
    let mut new_titles: Vec<String> = Vec::new();
    let mut i: usize = 0;
    while i < idx.len()
        invariant
            i <= idx@.len(),
            chosen_in_step(idx@, titles@, items),
            chosen_in_step(new_idx@, new_titles@, items),
            new_idx@.to_set() == idx@.take(i as int).to_set().remove(selected_idx),
            new_idx@.len() > 0 ==> i > 0 && new_idx@.last() <= idx@[i - 1],
            selected_idx < items.len(),
            selected_str@ == items[selected_idx as int]@,
            forall|a: int, b: int| 0 <= a < b < items.len() ==> items[a]@ != items[b]@,
        decreases idx@.len() - i,
    {
        let x = idx[i];
        let keep_idx = x != selected_idx;
        let keep_title = !str_eq(titles[i].as_str(), selected_str);
        proof {
            assert(titles@[i as int]@ == items[x as int]@);
            assert(keep_idx == keep_title);
            idx@.take(i as int).lemma_push_to_set_commute(x);
            assert(idx@.take(i + 1) =~= idx@.take(i as int).push(x));
        }
        if keep_idx {
            let ghost before = new_idx@;
            new_idx.push(x);
            new_titles.push(titles[i].clone());
            proof {
                before.lemma_push_to_set_commute(x);
                assert(new_idx@.to_set() =~= idx@.take(i + 1).to_set().remove(selected_idx));
            }
        } else {
            proof {
                assert(new_idx@.to_set() =~= idx@.take(i + 1).to_set().remove(selected_idx));
            }
        }
        i = i + 1;
    }
    proof {
        assert(idx@.take(idx@.len() as int) =~= idx@);
    }
    (new_idx, new_titles)
}

} // verus!

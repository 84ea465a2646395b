use vstd::prelude::*;

use crate::tui::{DisplayLine, LineStyle};

verus! {

/// One line of a navigable list: what to show, and the entry it leads to.
#[derive(Debug, PartialEq, Eq)]
pub struct NavListItem {
    pub text: DisplayLine,
    pub sub_location: Option<String>,
}

impl DeepView for NavListItem {
    type V = (Seq<char>, LineStyle, Option<Seq<char>>);

    open spec fn deep_view(&self) -> Self::V {
        (
            self.text.text@,
            self.text.style,
            match self.sub_location {
                Some(s) => Some(s@),
                None => None,
            },
        )
    }
}

/// Where a navigable list is scrolled to, and which entry is selected.
#[derive(Debug, PartialEq, Eq)]
pub struct NavListState {
    pub offset: usize,
    pub selected: Option<String>,
}

impl DeepView for NavListState {
    type V = (usize, Option<Seq<char>>);

    open spec fn deep_view(&self) -> Self::V {
        (
            self.offset,
            match self.selected {
                Some(s) => Some(s@),
                None => None,
            },
        )
    }
}

impl Default for NavListState {
    fn default() -> (r: Self)
        ensures
            r.offset == 0,
            r.selected is None,
    {
        NavListState { offset: 0, selected: None }
    }
}

impl NavListState {
    /// A copy of this state.
    pub fn copy(&self) -> (r: NavListState)
        ensures
            r.deep_view() == self.deep_view(),
    {
        NavListState {
            offset: self.offset,
            selected: match &self.selected {
                Some(s) => Some(s.clone()),
                None => None,
            },
        }
    }
}

/// The index of the first item that leads to `selected`.
pub open spec fn spec_selected_index(items: Seq<(Seq<char>, LineStyle, Option<Seq<char>>)>, selected: Option<Seq<char>>) -> Option<int>
    decreases items.len(),
{
    match selected {
        None => None,
        Some(s) => if items.len() == 0 {
            None
        } else if items[0].2 == Some(s) {
            Some(0)
        } else {
            match spec_selected_index(items.drop_first(), selected) {
                Some(i) => Some(i + 1),
                None => None,
            }
        },
    }
}

proof fn lemma_selected_index_at(items: Seq<(Seq<char>, LineStyle, Option<Seq<char>>)>, s: Seq<char>, i: int)
    requires
        0 <= i <= items.len(),
        forall|j: int| 0 <= j < i ==> items[j].2 != Some(s),
    ensures
        spec_selected_index(items, Some(s)) == if i < items.len() && items[i].2 == Some(s) {
            Some(i)
        } else {
            match spec_selected_index(items.skip(i), Some(s)) {
                Some(k) => Some(k + i),
                None => None,
            }
        },
    decreases i,
{
    if i > 0 {
        assert(items[0].2 != Some(s));
        lemma_selected_index_at(items.drop_first(), s, i - 1);
        assert(items.drop_first().skip(i - 1) =~= items.skip(i));
    } else {
        assert(items.skip(0) =~= items);
    }
}

/// Which item of the list is highlighted: the first one that leads to the selected entry.
pub fn selected_index(items: &Vec<NavListItem>, selected: &Option<String>) -> (r: Option<usize>)
    ensures
        match r {
            Some(i) => spec_selected_index(items.deep_view(), match selected {
                Some(s) => Some(s@),
                None => None,
            }) == Some(i as int),
            None => spec_selected_index(items.deep_view(), match selected {
                Some(s) => Some(s@),
                None => None,
            }) is None,
        },
{
    let s = match selected {
        Some(s) => s,
        None => {
            return None;
        },
    };
    let ghost iv = items.deep_view();
    let mut i: usize = 0;
    while i < items.len()
        invariant
            i <= items.len(),
            iv == items.deep_view(),
            match selected {
                Some(x) => x@ == s@,
                None => false,
            },
            forall|j: int| 0 <= j < i ==> iv[j].2 != Some(s@),
        decreases items.len() - i,
    {
        assert(iv[i as int] == items@[i as int].deep_view());
        let hit = match &items[i].sub_location {
            Some(sub) => *sub == *s,
            None => false,
        };
        if hit {
            proof {
                lemma_selected_index_at(iv, s@, i as int);
            }
            return Some(i);
        }
        i = i + 1;
    }
    proof {
        lemma_selected_index_at(iv, s@, i as int);
        assert(iv.skip(i as int).len() == 0);
    }
    None
}

} // verus!

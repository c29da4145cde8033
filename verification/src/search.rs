//! Searching a manager overlay: the typed text restricts the rows to those
//! whose names hold it.

use crate::keys::MAX_NAME;
use crate::text::{control, is_control, to_chars};
use vstd::prelude::*;

verus! {

/// Whether `text` stands in `name`.
pub open spec fn found_in(name: Seq<char>, text: Seq<char>) -> bool {
    exists|i: int| #[trigger] stands_at(name, text, i)
}

/// Whether `text` stands in `name` at `i`.
pub open spec fn stands_at(name: Seq<char>, text: Seq<char>, i: int) -> bool {
    0 <= i && i + text.len() <= name.len() && name.subrange(i, i + text.len()) == text
}

/// The rows among the first `n` whose names hold the text, in order.
pub open spec fn matching(names: Seq<Seq<char>>, text: Seq<char>, n: int) -> Seq<int>
    decreases n,
{
    if n <= 0 {
        Seq::empty()
    } else if found_in(names[n - 1], text) {
        matching(names, text, n - 1).push(n - 1)
    } else {
        matching(names, text, n - 1)
    }
}

/// The rows whose names hold the text, in order.
pub open spec fn rows_found(names: Seq<Seq<char>>, text: Seq<char>) -> Seq<int> {
    matching(names, text, names.len() as int)
}

/// Names as sequences of characters.
pub open spec fn name_views(names: Seq<String>) -> Seq<Seq<char>> {
    names.map_values(|n: String| n@)
}

/// Whether `text` stands in `name`.
fn is_found(name: &Vec<char>, text: &Vec<char>) -> (r: bool)
    ensures
        r == found_in(name@, text@),
{
    if text.len() > name.len() {
        return false;
    }
    let last: usize = name.len() - text.len();
    let mut i: usize = 0;
    while i <= last
        invariant
            i <= last + 1,
            last + text@.len() == name@.len(),
            forall|j: int| 0 <= j < i ==> !(#[trigger] stands_at(name@, text@, j)),
        decreases last + 1 - i,
    {
        let mut k: usize = 0;
        while k < text.len() && name[i + k] == text[k]
            invariant
                k <= text@.len(),
                i <= last,
                last + text.len() == name.len(),
                forall|j: int| 0 <= j < k ==> name@[i + j] == text@[j],
            decreases text@.len() - k,
        {
            k = k + 1;
        }
        if k == text.len() {
            assert(name@.subrange(i as int, i + text@.len()) =~= text@);
            assert(stands_at(name@, text@, i as int));
            return true;
        }
        assert(!stands_at(name@, text@, i as int)) by {
            assert(name@.subrange(i as int, i + text@.len())[k as int] != text@[k as int]);
        }
        if i == last {
            return false;
        }
        i = i + 1;
    }
    false
}

/// The rows whose names hold the text, in order.
pub fn find_rows(names: &Vec<String>, text: &str) -> (r: Vec<usize>)
    ensures
        r@.map_values(|i: usize| i as int) == rows_found(name_views(names@), text@),
        forall|k: int| 0 <= k < r@.len() ==> #[trigger] r@[k] < names@.len(),
{
    let ghost v = name_views(names@);
    let typed: Vec<char> = to_chars(text);
    let mut r: Vec<usize> = Vec::new();
    let mut i: usize = 0;
    assert(r@.map_values(|i: usize| i as int) =~= matching(v, text@, 0));
    while i < names.len()
        invariant
            i <= names@.len(),
            v == name_views(names@),
            typed@ == text@,
            r@.map_values(|i: usize| i as int) == matching(v, text@, i as int),
            forall|k: int| 0 <= k < r@.len() ==> #[trigger] r@[k] < i,
        decreases names@.len() - i,
    {
        assert(v[i as int] == names@[i as int]@);
        let name: Vec<char> = to_chars(names[i].as_str());
        if is_found(&name, &typed) {
            let ghost before = r@;
            r.push(i);
            assert(r@.map_values(|i: usize| i as int) =~= matching(v, text@, i as int).push(
                i as int,
            ));
        }
        i = i + 1;
    }
    r
}

/// What happened after applying search key presses.
#[derive(Clone, Copy, PartialEq, Eq, Structural)]
pub enum SearchOutcome {
    /// Still searching.
    Pending,
    /// Enter pressed: switch to the highlighted row.
    Accept,
    /// Esc pressed: back to the manager.
    Cancel,
}

/// The searched text, the highlighted row among those found, and what comes
/// of it.
pub struct Searched {
    pub text: Seq<char>,
    pub selected: usize,
    pub outcome: SearchOutcome,
}

/// Whether an arrow key stands at `i`: escape, `[` and its letter.
pub open spec fn arrow_at(keys: Seq<char>, i: int, letter: char) -> bool {
    i + 2 < keys.len() && keys[i] == '\u{1b}' && keys[i + 1] == '[' && keys[i + 2] == letter
}

/// The highlight moved down in a list of `count` rows.
pub open spec fn next_row(selected: usize, count: nat) -> usize {
    if selected + 1 < count {
        (selected + 1) as usize
    } else if count > 0 {
        (count - 1) as usize
    } else {
        0
    }
}

/// The search after the keys from `i` on: characters are added to the text,
/// backspace takes the last one away, and either highlights the first row
/// found; arrow keys move the highlight within the rows found.
pub open spec fn searched(
    keys: Seq<char>,
    i: int,
    names: Seq<Seq<char>>,
    text: Seq<char>,
    selected: usize,
) -> Searched
    decreases keys.len() - i,
{
    if i >= keys.len() {
        Searched { text, selected, outcome: SearchOutcome::Pending }
    } else if keys[i] == '\r' || keys[i] == '\n' {
        Searched { text, selected, outcome: SearchOutcome::Accept }
    } else if arrow_at(keys, i, 'A') {
        searched(
            keys,
            i + 3,
            names,
            text,
            if selected > 0 {
                (selected - 1) as usize
            } else {
                0
            },
        )
    } else if arrow_at(keys, i, 'B') {
        searched(keys, i + 3, names, text, next_row(selected, rows_found(names, text).len()))
    } else if keys[i] == '\u{1b}' {
        Searched { text, selected, outcome: SearchOutcome::Cancel }
    } else if keys[i] == '\u{7f}' || keys[i] == '\u{8}' {
        searched(
            keys,
            i + 1,
            names,
            if text.len() > 0 {
                text.drop_last()
            } else {
                text
            },
            0,
        )
    } else if !control(keys[i]) && text.len() < MAX_NAME {
        searched(keys, i + 1, names, text.push(keys[i]), 0)
    } else {
        searched(keys, i + 1, names, text, selected)
    }
}

/// Apply typed characters to a search among rows with these names.
pub fn search_keys(
    keys: &Vec<char>,
    names: &Vec<String>,
    text: &mut String,
    selected: &mut usize,
) -> (r: SearchOutcome)
    ensures
        searched(keys@, 0, name_views(names@), old(text)@, *old(selected)) == (Searched {
            text: final(text)@,
            selected: *final(selected),
            outcome: r,
        }),
{
    let ghost v = name_views(names@);
    let mut len: usize = to_chars(text.as_str()).len();
    let mut i: usize = 0;
    while i < keys.len()
        invariant
            i <= keys@.len(),
            v == name_views(names@),
            len == text@.len(),
            searched(keys@, 0, v, old(text)@, *old(selected)) == searched(
                keys@,
                i as int,
                v,
                text@,
                *selected,
            ),
        decreases keys@.len() - i,
    {
        let c: char = keys[i];
        if c == '\r' || c == '\n' {
            return SearchOutcome::Accept;
        }
        if c == '\u{1b}' {
            let arrow: bool = keys.len() - i > 2 && keys[i + 1] == '[';
            if arrow && keys[i + 2] == 'A' {
                if *selected > 0 {
                    *selected = *selected - 1;
                }
                i = i + 3;
            } else if arrow && keys[i + 2] == 'B' {
                let rows: Vec<usize> = find_rows(names, text.as_str());
                let count: usize = rows.len();
                assert(count == rows_found(v, text@).len());
                *selected = if count == 0 {
                    0
                } else if *selected < count - 1 {
                    *selected + 1
                } else {
                    count - 1
                };
                i = i + 3;
            } else {
                return SearchOutcome::Cancel;
            }
        } else if c == '\u{7f}' || c == '\u{8}' {
            let _ = text.pop();
            if len > 0 {
                len = len - 1;
            }
            *selected = 0;
            i = i + 1;
        } else {
            if !is_control(c) && len < MAX_NAME {
                text.push(c);
                len = len + 1;
                *selected = 0;
            }
            i = i + 1;
        }
    }
    SearchOutcome::Pending
}

/// A search restricts the rows to those whose names hold the text: all of
/// them, in the order of the list, each once.
pub proof fn law_rows_found(names: Seq<Seq<char>>, text: Seq<char>)
    ensures
        forall|k: int|
            0 <= k < rows_found(names, text).len() ==> 0 <= #[trigger] rows_found(names, text)[k]
                < names.len() && found_in(names[rows_found(names, text)[k]], text),
        forall|k: int, l: int|
            0 <= k < l < rows_found(names, text).len() ==> #[trigger] rows_found(names, text)[k]
                < #[trigger] rows_found(names, text)[l],
        forall|i: int|
            0 <= i < names.len() && found_in(#[trigger] names[i], text) ==> rows_found(
                names,
                text,
            ).contains(i),
{
    lemma_matching(names, text, names.len() as int);
}

proof fn lemma_matching(names: Seq<Seq<char>>, text: Seq<char>, n: int)
    requires
        0 <= n <= names.len(),
    ensures
        forall|k: int|
            0 <= k < matching(names, text, n).len() ==> 0 <= #[trigger] matching(names, text, n)[k]
                < n && found_in(names[matching(names, text, n)[k]], text),
        forall|k: int, l: int|
            0 <= k < l < matching(names, text, n).len() ==> #[trigger] matching(names, text, n)[k]
                < #[trigger] matching(names, text, n)[l],
        forall|i: int|
            0 <= i < n && found_in(#[trigger] names[i], text) ==> matching(
                names,
                text,
                n,
            ).contains(i),
    decreases n,
{
    if n > 0 {
        lemma_matching(names, text, n - 1);
        let before = matching(names, text, n - 1);
        let after = matching(names, text, n);
        if found_in(names[n - 1], text) {
            let m = before.len() as int;
            assert(after[m] == n - 1);
            assert forall|k: int| 0 <= k < m implies #[trigger] after[k] == before[k] by {}
            assert forall|i: int| 0 <= i < n && found_in(#[trigger] names[i], text) implies
                after.contains(i) by {
                if i < n - 1 {
                    let k = choose|k: int| 0 <= k < before.len() && before[k] == i;
                    assert(after[k] == i);
                }
            }
        }
    }
}

/// Searching for nothing shows every row.
pub proof fn law_empty_search_shows_all(names: Seq<Seq<char>>)
    ensures
        rows_found(names, Seq::empty()) == Seq::new(names.len(), |i: int| i),
{
    lemma_all_match(names, names.len() as int);
}

proof fn lemma_all_match(names: Seq<Seq<char>>, n: int)
    requires
        0 <= n <= names.len(),
    ensures
        matching(names, Seq::empty(), n) == Seq::new(n as nat, |i: int| i),
    decreases n,
{
    if n > 0 {
        lemma_all_match(names, n - 1);
        let none = Seq::<char>::empty();
        assert(names[n - 1].subrange(0, 0) =~= none);
        assert(stands_at(names[n - 1], none, 0));
    }
    assert(matching(names, Seq::empty(), n) =~= Seq::new(n as nat, |i: int| i));
}

/// A longer text finds no more rows: typing on only restricts the rows.
pub proof fn law_typing_restricts(name: Seq<char>, text: Seq<char>, c: char)
    requires
        found_in(name, text.push(c)),
    ensures
        found_in(name, text),
{
    let i = choose|i: int| #[trigger] stands_at(name, text.push(c), i);
    let long = name.subrange(i, i + text.len() + 1);
    assert(long == text.push(c));
    assert(name.subrange(i, i + text.len()) =~= long.take(text.len() as int));
    assert(text.push(c).take(text.len() as int) =~= text);
    assert(stands_at(name, text, i));
}

/// The highlighted row is one of those found, as long as any is.
pub proof fn law_highlight_in_range(
    keys: Seq<char>,
    i: int,
    names: Seq<Seq<char>>,
    text: Seq<char>,
    selected: usize,
)
    requires
        0 <= i,
        rows_found(names, text).len() > 0 ==> selected < rows_found(names, text).len(),
    ensures
        ({
            let r = searched(keys, i, names, text, selected);
            rows_found(names, r.text).len() > 0 ==> r.selected < rows_found(names, r.text).len()
        }),
    decreases keys.len() - i,
{
    if i < keys.len() && keys[i] != '\r' && keys[i] != '\n' {
        if arrow_at(keys, i, 'A') {
            let up = if selected > 0 {
                (selected - 1) as usize
            } else {
                0
            };
            law_highlight_in_range(keys, i + 3, names, text, up);
        } else if arrow_at(keys, i, 'B') {
            let count = rows_found(names, text).len();
            law_highlight_in_range(keys, i + 3, names, text, next_row(selected, count));
        } else if keys[i] == '\u{1b}' {
        } else if keys[i] == '\u{7f}' || keys[i] == '\u{8}' {
            let less = if text.len() > 0 {
                text.drop_last()
            } else {
                text
            };
            law_highlight_in_range(keys, i + 1, names, less, 0);
        } else if !control(keys[i]) && text.len() < MAX_NAME {
            law_highlight_in_range(keys, i + 1, names, text.push(keys[i]), 0);
        } else {
            law_highlight_in_range(keys, i + 1, names, text, selected);
        }
    }
}

} // verus!

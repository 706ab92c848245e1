//! The report of the dynamic linker on one program: one line for each
//! library that the program needs. A line that holds the words
//! ` => not found` reports a library that the linker could not resolve, and
//! the library's name stands before those words, behind one character of
//! indentation where the line is indented.

use vstd::prelude::*;
use crate::text::{
    chars_of, find, first_occurrence, is_first_occurrence, is_space, lemma_first_occurrence,
    lemma_line_feed, lemma_lines_hold_no_feed, lemma_trim_idempotent, lemma_trim_shape, lines,
    occurs_at, split_lines, string_of, texts, trim, trim_bounds,
};

verus! {

/// The words that mark a library as unresolved.
pub open spec fn marker() -> Seq<char> {
    " => not found"@
}

/// The name that stands in `prefix`, the part of a line before the marker:
/// `prefix` without the one character of indentation that it may start with,
/// and without the white space at both ends of what is left. A prefix that
/// does not start with white space has no indentation and loses nothing at
/// its start.
pub open spec fn name_before(prefix: Seq<char>) -> Seq<char> {
    trim(
        if prefix.len() > 0 && is_space(prefix.first()) {
            prefix.drop_first()
        } else {
            prefix
        },
    )
}

/// The library that `line` reports as unresolved, if it reports one. The
/// marker counts where it first stands in the line.
pub open spec fn missing_in(line: Seq<char>) -> Option<Seq<char>> {
    match first_occurrence(line, marker()) {
        Some(i) => Some(name_before(line.take(i))),
        None => None,
    }
}

/// The libraries that the lines `rows` report as unresolved, one for each
/// line that holds the marker, in the order of the lines.
pub open spec fn missing_names(rows: Seq<Seq<char>>) -> Seq<Seq<char>> {
    rows.filter_map(|line: Seq<char>| missing_in(line))
}

/// The name before the marker is the text before the marker without the
/// white space at its two ends: the character of indentation is white space
/// itself.
pub proof fn lemma_name_is_trimmed_prefix(prefix: Seq<char>)
    ensures
        name_before(prefix) == trim(prefix),
{
}

/// Reads one line of the report.
pub fn missing_in_line(line: &Vec<char>) -> (r: Option<String>)
    ensures
        r.deep_view() == missing_in(line@),
{
    let pattern = chars_of(" => not found");
    match find(line, &pattern) {
        Some(i) => {
            proof {
                assert(line@.take(i as int) =~= line@.subrange(0, i as int));
                lemma_name_is_trimmed_prefix(line@.take(i as int));
            }
            let (from, to) = trim_bounds(line, 0, i);
            Some(string_of(line, from, to))
        },
        None => None,
    }
}

/// Extracts from the linker's report the names of the libraries that it
/// could not resolve, in the order of the report.
pub fn missing_libs(report: &str) -> (names: Vec<String>)
    ensures
        names.deep_view() == missing_names(lines(report@)),
{
    let chars = chars_of(report);
    let rows = split_lines(&chars);
    let mut names: Vec<String> = Vec::new();
    let mut k: usize = 0;
    while k < rows.len()
        invariant
            k <= rows.len(),
            texts(rows@) == lines(report@),
            names.deep_view() == missing_names(lines(report@).take(k as int)),
        decreases rows.len() - k,
    {
        let ghost all = lines(report@);
        let ghost before = names.deep_view();
        proof {
            assert(all[k as int] == rows[k as int]@);
            all.lemma_filter_map_take_succ(|line: Seq<char>| missing_in(line), k as int);
        }
        match missing_in_line(&rows[k]) {
            Some(name) => {
                names.push(name);
                assert(names.deep_view() =~= before + seq![name@]);
            },
            None => {
                assert(before + Seq::<Seq<char>>::empty() =~= before);
            },
        }
        k += 1;
    }
    proof {
        assert(lines(report@).take(k as int) =~= lines(report@));
    }
    names
}

/// The line by which a report tells that the library `name` is unresolved.
pub open spec fn line_for(name: Seq<char>) -> Seq<char> {
    seq!['\t'] + name + marker()
}

/// The report that tells of each of `names`, in their order, that it is
/// unresolved, and of nothing else.
pub open spec fn report_of(names: Seq<Seq<char>>) -> Seq<char>
    decreases names.len(),
{
    if names.len() == 0 {
        Seq::empty()
    } else {
        line_for(names.first()) + seq!['\n'] + report_of(names.drop_first())
    }
}

/// What holds of every name that comes out of a report: it holds no line
/// feed and no marker, and it neither starts nor ends with white space.
pub open spec fn is_clean(name: Seq<char>) -> bool {
    &&& forall|j: int| 0 <= j < name.len() ==> name[j] != '\n'
    &&& forall|j: int| !occurs_at(name, marker(), j)
    &&& trim(name) == name
}

/// The name that is read from a line is clean.
pub proof fn lemma_name_is_clean(line: Seq<char>, i: int)
    requires
        is_first_occurrence(line, marker(), i),
        forall|j: int| 0 <= j < line.len() ==> line[j] != '\n',
    ensures
        is_clean(name_before(line.take(i))),
{
    reveal_strlit(" => not found");
    let prefix = line.take(i);
    let name = name_before(prefix);
    lemma_name_is_trimmed_prefix(prefix);
    let (a, b) = lemma_trim_shape(prefix);
    lemma_trim_idempotent(prefix);
    assert(name == prefix.subrange(a, b));
    assert forall|j: int| 0 <= j < name.len() implies name[j] != '\n' by {
        assert(name[j] == line[a + j]);
    }
    assert forall|j: int| !occurs_at(name, marker(), j) by {
        if occurs_at(name, marker(), j) {
            let at: int = a + j;
            assert(line.subrange(at, at + marker().len()) =~= name.subrange(
                j,
                j + marker().len(),
            ));
            assert(occurs_at(line, marker(), at));
        }
    }
}

/// Every name that is read from a text is clean.
pub proof fn lemma_names_are_clean(text: Seq<char>)
    ensures
        forall|k: int|
            0 <= k < missing_names(lines(text)).len() ==> is_clean(
                #[trigger] missing_names(lines(text))[k],
            ),
{
    let rows = lines(text);
    let names = missing_names(rows);
    lemma_lines_hold_no_feed(text);
    assert forall|k: int| 0 <= k < names.len() implies is_clean(#[trigger] names[k]) by {
        let f = |line: Seq<char>| missing_in(line);
        assert(names.contains(names[k]));
        rows.lemma_filter_map_contains(f, names[k]);
        let line = choose|line: Seq<char>|
            #[trigger] rows.contains(line) && f(line) == Some(names[k]);
        let row = choose|row: int| 0 <= row < rows.len() && rows[row] == line;
        assert(forall|j: int| 0 <= j < line.len() ==> rows[row][j] != '\n');
        let i = first_occurrence(line, marker())->0;
        assert(is_first_occurrence(line, marker(), i));
        lemma_name_is_clean(line, i);
    }
}

/// The line that tells of a clean name is read back as that name.
pub proof fn lemma_line_round_trip(name: Seq<char>)
    requires
        is_clean(name),
    ensures
        missing_in(line_for(name)) == Some(name),
{
    reveal_strlit(" => not found");
    let m = marker();
    let line = line_for(name);
    let at = (name.len() + 1) as int;
    assert(line.subrange(at, at + m.len()) =~= m);
    assert forall|j: int| 0 <= j < at implies !occurs_at(line, m, j) by {
        if occurs_at(line, m, j) {
            let found = line.subrange(j, j + m.len());
            if j == 0 {
                assert(found[0] == line[0]);
            } else if j + m.len() <= at {
                assert(name.subrange(j - 1, j - 1 + m.len()) =~= found);
                assert(occurs_at(name, m, j - 1));
            } else {
                let k = at - j;
                assert(found[k] == line[at]);
                if k < 12 {
                    assert(found[k + 1] == line[at + 1]);
                }
            }
        }
    }
    lemma_first_occurrence(line, m, at);
    assert(line.take(at).drop_first() =~= name);
}

/// The lines of a report that was made of clean names are the lines that
/// tell of them.
pub proof fn lemma_report_lines(names: Seq<Seq<char>>)
    requires
        forall|k: int| 0 <= k < names.len() ==> is_clean(#[trigger] names[k]),
    ensures
        lines(report_of(names)) == Seq::new(names.len(), |k: int| line_for(names[k])),
    decreases names.len(),
{
    let expected = Seq::new(names.len(), |k: int| line_for(names[k]));
    if names.len() == 0 {
        assert(lines(report_of(names)) =~= expected);
    } else {
        reveal_strlit(" => not found");
        let first = line_for(names.first());
        let rest = names.drop_first();
        let text = report_of(names);
        let at = first.len() as int;
        assert(is_clean(names[0]));
        assert forall|j: int| 0 <= j < at implies text[j] != '\n' by {
            if 1 <= j < 1 + names[0].len() {
                assert(text[j] == names[0][j - 1]);
            }
        }
        lemma_line_feed(text, at);
        assert(text.take(at) =~= first);
        assert(first.last() == 'd');
        assert(text.skip(at + 1) =~= report_of(rest));
        assert forall|k: int| 0 <= k < rest.len() implies is_clean(#[trigger] rest[k]) by {
            assert(rest[k] == names[k + 1]);
        }
        lemma_report_lines(rest);
        assert(lines(text) =~= expected);
    }
}

/// Reading the report that was made of clean names gives those names again.
pub proof fn lemma_report_round_trip(names: Seq<Seq<char>>)
    requires
        forall|k: int| 0 <= k < names.len() ==> is_clean(#[trigger] names[k]),
    ensures
        missing_names(lines(report_of(names))) == names,
{
    lemma_report_lines(names);
    lemma_lines_round_trip(names);
}

/// Reading the lines that tell of clean names gives those names again.
proof fn lemma_lines_round_trip(names: Seq<Seq<char>>)
    requires
        forall|k: int| 0 <= k < names.len() ==> is_clean(#[trigger] names[k]),
    ensures
        missing_names(Seq::new(names.len(), |k: int| line_for(names[k]))) == names,
    decreases names.len(),
{
    let rows = Seq::new(names.len(), |k: int| line_for(names[k]));
    if names.len() == 0 {
        assert(missing_names(rows) =~= names);
    } else {
        let shorter = names.drop_last();
        assert forall|k: int| 0 <= k < shorter.len() implies is_clean(#[trigger] shorter[k]) by {
            assert(shorter[k] == names[k]);
        }
        lemma_lines_round_trip(shorter);
        assert(rows.drop_last() =~= Seq::new(shorter.len(), |k: int| line_for(shorter[k])));
        assert(is_clean(names[names.len() - 1]));
        lemma_line_round_trip(names.last());
        assert(missing_names(rows) =~= names);
    }
}

/// Reading a report is idempotent: the names that are read from any text,
/// written out as a report of their own, are read back unchanged.
pub proof fn lemma_missing_names_idempotent(text: Seq<char>)
    ensures
        missing_names(lines(report_of(missing_names(lines(text))))) == missing_names(lines(text)),
{
    lemma_names_are_clean(text);
    lemma_report_round_trip(missing_names(lines(text)));
}

} // verus!

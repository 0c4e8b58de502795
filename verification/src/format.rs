//! The on-disk record format.
//!
//! A backing file is a sequence of lines separated by single newline
//! characters, where the final line need not be terminated. Each line is one
//! record: a key and a value separated by exactly one tab character. These
//! spec functions define parsing and serialization of that format over
//! sequences of characters, together with the lemmas that relate them.

use vstd::prelude::*;

verus! {

/// Text may be stored as a key or a value only if it contains neither the
/// field delimiter (tab) nor the record separator (newline): either would
/// change the line or field structure of the file on the next load.
pub open spec fn valid_text(s: Seq<char>) -> bool {
    forall|i: int| 0 <= i < s.len() ==> s[i] != '\t' && s[i] != '\n'
}

/// The index of the first occurrence of `c` in `s`, or `s.len()` if `c` does
/// not occur.
pub open spec fn find_char(s: Seq<char>, c: char) -> int
    decreases s.len(),
{
    if s.len() == 0 {
        0
    } else if s[0] == c {
        0
    } else {
        1 + find_char(s.drop_first(), c)
    }
}

/// `find_char` returns an index within bounds, pointing at `c` unless `c` is
/// absent, and nothing before it is `c`.
pub proof fn lemma_find_char(s: Seq<char>, c: char)
    ensures
        0 <= find_char(s, c) <= s.len(),
        find_char(s, c) < s.len() ==> s[find_char(s, c)] == c,
        forall|i: int| 0 <= i < find_char(s, c) ==> s[i] != c,
    decreases s.len(),
{
    if s.len() == 0 {
    } else if s[0] == c {
    } else {
        lemma_find_char(s.drop_first(), c);
        assert forall|i: int| 0 <= i < find_char(s, c) implies s[i] != c by {
            if i >= 1 {
                assert(s[i] == s.drop_first()[i - 1]);
            }
        }
    }
}

/// If `c` sits at index `i` and nowhere earlier, then `find_char` finds it
/// exactly there.
pub proof fn lemma_find_char_is(s: Seq<char>, c: char, i: int)
    requires
        0 <= i < s.len(),
        s[i] == c,
        forall|j: int| 0 <= j < i ==> s[j] != c,
    ensures
        find_char(s, c) == i,
{
    lemma_find_char(s, c);
}

/// If `c` occurs nowhere in `s`, then `find_char` returns `s.len()`.
pub proof fn lemma_find_char_absent(s: Seq<char>, c: char)
    requires
        forall|j: int| 0 <= j < s.len() ==> s[j] != c,
    ensures
        find_char(s, c) == s.len(),
{
    lemma_find_char(s, c);
}

/// The lines of a file's contents: maximal newline-free runs, where a
/// trailing newline does not open a final empty line. Matches how the
/// contents are split on load.
pub open spec fn split_lines(s: Seq<char>) -> Seq<Seq<char>>
    decreases s.len(),
{
    if s.len() == 0 {
        Seq::empty()
    } else {
        let e = find_char(s, '\n');
        if 0 <= e < s.len() {
            seq![s.take(e)] + split_lines(s.skip(e + 1))
        } else {
            seq![s]
        }
    }
}

/// One line parses to a record exactly when it contains exactly one tab: the
/// key is what precedes it, the value what follows. Any other number of tabs
/// gives a field count other than two, which is a malformed record.
pub open spec fn parse_line(line: Seq<char>) -> Option<(Seq<char>, Seq<char>)> {
    let t = find_char(line, '\t');
    if t == line.len() {
        None
    } else {
        let value = line.skip(t + 1);
        if find_char(value, '\t') == value.len() {
            Some((line.take(t), value))
        } else {
            None
        }
    }
}

/// All lines parse, in order, or the whole parse fails.
pub open spec fn parse_lines(lines: Seq<Seq<char>>) -> Option<Seq<(Seq<char>, Seq<char>)>>
    decreases lines.len(),
{
    if lines.len() == 0 {
        Some(Seq::empty())
    } else {
        match (parse_line(lines[0]), parse_lines(lines.drop_first())) {
            (Some(entry), Some(rest)) => Some(seq![entry] + rest),
            _ => None,
        }
    }
}

/// The records encoded by a backing file's contents, or `None` if any line
/// is malformed. The empty file encodes zero records.
pub open spec fn parse_contents(s: Seq<char>) -> Option<Seq<(Seq<char>, Seq<char>)>> {
    parse_lines(split_lines(s))
}

/// One record's line: key, tab, value.
pub open spec fn serialize_entry(k: Seq<char>, v: Seq<char>) -> Seq<char> {
    k + seq!['\t'] + v
}

/// The file contents encoding a sequence of records: their lines joined by
/// single newlines, with no trailing newline.
pub open spec fn serialize_entries(entries: Seq<(Seq<char>, Seq<char>)>) -> Seq<char>
    decreases entries.len(),
{
    if entries.len() == 0 {
        Seq::empty()
    } else if entries.len() == 1 {
        serialize_entry(entries[0].0, entries[0].1)
    } else {
        serialize_entry(entries[0].0, entries[0].1) + seq!['\n']
            + serialize_entries(entries.drop_first())
    }
}

/// The mapping denoted by a sequence of records: each key maps to the value
/// of its last record, so a later line wins over an earlier one.
pub open spec fn map_of(entries: Seq<(Seq<char>, Seq<char>)>) -> Map<Seq<char>, Seq<char>>
    decreases entries.len(),
{
    if entries.len() == 0 {
        Map::empty()
    } else {
        map_of(entries.drop_last()).insert(entries.last().0, entries.last().1)
    }
}

/// No two records share a key.
pub open spec fn unique_keys(entries: Seq<(Seq<char>, Seq<char>)>) -> bool {
    forall|i: int, j: int| 0 <= i < j < entries.len() ==> entries[i].0 != entries[j].0
}

/// Every key and value is storable text.
pub open spec fn valid_entries(entries: Seq<(Seq<char>, Seq<char>)>) -> bool {
    forall|i: int| 0 <= i < entries.len()
        ==> valid_text(#[trigger] entries[i].0) && valid_text(entries[i].1)
}

/// Text that contains no newline, so it fits on one line of the file.
pub open spec fn newline_free(l: Seq<char>) -> bool {
    forall|j: int| 0 <= j < l.len() ==> l[j] != '\n'
}

/// A record's serialized line parses back to exactly that record, and the
/// line contains no newline.
pub proof fn lemma_parse_serialized_line(k: Seq<char>, v: Seq<char>)
    requires
        valid_text(k),
        valid_text(v),
    ensures
        parse_line(serialize_entry(k, v)) == Some((k, v)),
        newline_free(serialize_entry(k, v)),
        serialize_entry(k, v).len() == k.len() + 1 + v.len(),
{
    let line = serialize_entry(k, v);
    assert(forall|i: int| 0 <= i < k.len() ==> line[i] == k[i]);
    assert(line[k.len() as int] == '\t');
    assert(forall|i: int| k.len() + 1 <= i < line.len() ==> line[i] == v[i - k.len() - 1]);
    lemma_find_char_is(line, '\t', k.len() as int);
    let value = line.skip(k.len() as int + 1);
    assert(value =~= v);
    lemma_find_char_absent(v, '\t');
    assert(line.take(k.len() as int) =~= k);
}

/// Serializing any records whose keys and values are storable text and then
/// parsing the result gives back exactly those records. This is the format
/// half of the store's round-trip guarantee: a flushed file always loads,
/// and loads to what was flushed.
pub proof fn lemma_round_trip(entries: Seq<(Seq<char>, Seq<char>)>)
    requires
        valid_entries(entries),
    ensures
        parse_contents(serialize_entries(entries)) == Some(entries),
    decreases entries.len(),
{
    let s = serialize_entries(entries);
    if entries.len() == 0 {
        assert(entries =~= Seq::<(Seq<char>, Seq<char>)>::empty());
    } else if entries.len() == 1 {
        let k = entries[0].0;
        let v = entries[0].1;
        let line = serialize_entry(k, v);
        lemma_parse_serialized_line(k, v);
        lemma_find_char_absent(line, '\n');
        assert(split_lines(s) == seq![line]);
        assert(seq![line].drop_first() =~= Seq::<Seq<char>>::empty());
        assert(parse_line(line) == Some((k, v)));
        assert(seq![(k, v)] + Seq::<(Seq<char>, Seq<char>)>::empty() =~= entries);
    } else {
        let k = entries[0].0;
        let v = entries[0].1;
        let line = serialize_entry(k, v);
        let rest = entries.drop_first();
        let rest_s = serialize_entries(rest);
        lemma_parse_serialized_line(k, v);
        assert(s == line + seq!['\n'] + rest_s);
        assert(s[line.len() as int] == '\n');
        assert(forall|j: int| 0 <= j < line.len() ==> s[j] == line[j]);
        lemma_find_char_is(s, '\n', line.len() as int);
        assert(s.take(line.len() as int) =~= line);
        assert(s.skip(line.len() as int + 1) =~= rest_s);
        assert(valid_entries(rest)) by {
            assert(forall|i: int| 0 <= i < rest.len() ==> rest[i] == entries[i + 1]);
        }
        lemma_round_trip(rest);
        let tail_lines = split_lines(rest_s);
        let lines = seq![line] + tail_lines;
        assert(split_lines(s) == lines);
        assert(lines[0] == line);
        assert(lines.drop_first() =~= tail_lines);
        assert(parse_lines(lines) == Some(seq![(k, v)] + rest));
        assert(seq![(k, v)] + rest =~= entries);
    }
}

/// Every line produced by splitting contents is newline-free.
pub proof fn lemma_split_lines_newline_free(s: Seq<char>)
    ensures
        forall|i: int| 0 <= i < split_lines(s).len() ==> newline_free(#[trigger] split_lines(s)[i]),
    decreases s.len(),
{
    if s.len() == 0 {
    } else {
        let e = find_char(s, '\n');
        lemma_find_char(s, '\n');
        if e < s.len() {
            lemma_split_lines_newline_free(s.skip(e + 1));
            assert forall|i: int| 0 <= i < split_lines(s).len() implies newline_free(
                #[trigger] split_lines(s)[i],
            ) by {
                if i == 0 {
                    assert(forall|j: int| 0 <= j < e ==> s.take(e)[j] == s[j]);
                } else {
                    assert(split_lines(s)[i] == split_lines(s.skip(e + 1))[i - 1]);
                }
            }
        }
    }
}

/// Whatever parses out of newline-free lines is storable text: keys stop at
/// the first tab, values contain no further tab, and neither crosses a line.
pub proof fn lemma_parse_lines_valid(lines: Seq<Seq<char>>)
    requires
        forall|i: int| 0 <= i < lines.len() ==> newline_free(#[trigger] lines[i]),
        parse_lines(lines) is Some,
    ensures
        valid_entries(parse_lines(lines)->Some_0),
    decreases lines.len(),
{
    if lines.len() == 0 {
    } else {
        let line = lines[0];
        let t = find_char(line, '\t');
        lemma_find_char(line, '\t');
        let key = line.take(t);
        let value = line.skip(t + 1);
        lemma_find_char(value, '\t');
        assert(valid_text(key)) by {
            assert(forall|j: int| 0 <= j < key.len() ==> key[j] == line[j]);
        }
        assert(valid_text(value)) by {
            assert(forall|j: int| 0 <= j < value.len() ==> value[j] == line[j + t + 1]);
        }
        assert(forall|i: int| 0 <= i < lines.drop_first().len()
            ==> newline_free(#[trigger] lines.drop_first()[i])) by {
            assert(forall|i: int| 0 <= i < lines.drop_first().len()
                ==> lines.drop_first()[i] == lines[i + 1]);
        }
        lemma_parse_lines_valid(lines.drop_first());
        let entry = parse_line(line)->Some_0;
        let rest = parse_lines(lines.drop_first())->Some_0;
        assert(valid_entries(seq![entry] + rest)) by {
            assert(forall|i: int| 1 <= i < (seq![entry] + rest).len()
                ==> (seq![entry] + rest)[i] == rest[i - 1]);
        }
    }
}

/// Whatever parses out of a file's contents is storable text.
pub proof fn lemma_parse_contents_valid(s: Seq<char>)
    requires
        parse_contents(s) is Some,
    ensures
        valid_entries(parse_contents(s)->Some_0),
{
    lemma_split_lines_newline_free(s);
    lemma_parse_lines_valid(split_lines(s));
}

/// One malformed line anywhere poisons the whole parse: loading is atomic,
/// never yielding the well-formed records of a partly corrupt file.
pub proof fn lemma_malformed_atomic(s: Seq<char>)
    requires
        exists|i: int| 0 <= i < split_lines(s).len()
            && parse_line(#[trigger] split_lines(s)[i]) is None,
    ensures
        parse_contents(s) is None,
{
    lemma_parse_lines_malformed(split_lines(s));
}

/// If any line fails to parse, the whole sequence of lines fails to parse.
pub proof fn lemma_parse_lines_malformed(lines: Seq<Seq<char>>)
    requires
        exists|i: int| 0 <= i < lines.len() && parse_line(#[trigger] lines[i]) is None,
    ensures
        parse_lines(lines) is None,
    decreases lines.len(),
{
    let i = choose|i: int| 0 <= i < lines.len() && parse_line(#[trigger] lines[i]) is None;
    if i > 0 {
        assert(lines.drop_first()[i - 1] == lines[i]);
        lemma_parse_lines_malformed(lines.drop_first());
    }
}

/// Empty contents parse to zero records, and zero records serialize to
/// empty contents.
pub proof fn lemma_empty_contents()
    ensures
        parse_contents(Seq::<char>::empty()) == Some(Seq::<(Seq<char>, Seq<char>)>::empty()),
        serialize_entries(Seq::<(Seq<char>, Seq<char>)>::empty()) == Seq::<char>::empty(),
{
}

/// Serialization grows line by line: appending a record appends its line,
/// preceded by a newline unless it is the first.
pub proof fn lemma_serialize_push(entries: Seq<(Seq<char>, Seq<char>)>, e: (Seq<char>, Seq<char>))
    ensures
        serialize_entries(entries.push(e)) == if entries.len() == 0 {
            serialize_entry(e.0, e.1)
        } else {
            serialize_entries(entries) + seq!['\n'] + serialize_entry(e.0, e.1)
        },
    decreases entries.len(),
{
    let p = entries.push(e);
    if entries.len() == 0 {
        assert(p[0] == e);
    } else {
        assert(p[0] == entries[0]);
        assert(p.drop_first() =~= entries.drop_first().push(e));
        lemma_serialize_push(entries.drop_first(), e);
        if entries.len() == 1 {
            assert(entries.drop_first().len() == 0);
        } else {
            assert(serialize_entry(entries[0].0, entries[0].1) + seq!['\n'] + (serialize_entries(
                entries.drop_first(),
            ) + seq!['\n'] + serialize_entry(e.0, e.1)) =~= (serialize_entry(
                entries[0].0,
                entries[0].1,
            ) + seq!['\n'] + serialize_entries(entries.drop_first())) + seq!['\n']
                + serialize_entry(e.0, e.1));
        }
    }
}

/// Appending a record to the end of a sequence of records updates the
/// denoted mapping at that record's key.
pub proof fn lemma_map_of_push(entries: Seq<(Seq<char>, Seq<char>)>, k: Seq<char>, v: Seq<char>)
    ensures
        map_of(entries.push((k, v))) == map_of(entries).insert(k, v),
{
    assert(entries.push((k, v)).drop_last() =~= entries);
    assert(entries.push((k, v)).last() == (k, v));
}

/// Replacing the value of one record, when no other record shares its key,
/// updates the denoted mapping at that record's key.
pub proof fn lemma_map_of_update(entries: Seq<(Seq<char>, Seq<char>)>, j: int, v: Seq<char>)
    requires
        unique_keys(entries),
        0 <= j < entries.len(),
    ensures
        map_of(entries.update(j, (entries[j].0, v)))
            == map_of(entries).insert(entries[j].0, v),
    decreases entries.len(),
{
    let k = entries[j].0;
    let updated = entries.update(j, (k, v));
    if j == entries.len() - 1 {
        assert(updated.drop_last() =~= entries.drop_last());
        assert(updated.last() == (k, v));
        assert(entries.last().0 == k);
        assert(map_of(entries.drop_last()).insert(k, entries.last().1).insert(k, v)
            =~= map_of(entries.drop_last()).insert(k, v));
    } else {
        let le = entries.last();
        assert(forall|i: int| 0 <= i < entries.drop_last().len()
            ==> entries.drop_last()[i] == entries[i]);
        assert(unique_keys(entries.drop_last()));
        assert(updated.drop_last() =~= entries.drop_last().update(j, (k, v)));
        assert(updated.last() == le);
        lemma_map_of_update(entries.drop_last(), j, v);
        assert(k != le.0);
        assert(map_of(entries.drop_last()).insert(k, v).insert(le.0, le.1)
            =~= map_of(entries.drop_last()).insert(le.0, le.1).insert(k, v));
    }
}

/// A key is in the denoted mapping exactly when some record carries it.
pub proof fn lemma_map_of_membership(entries: Seq<(Seq<char>, Seq<char>)>)
    ensures
        forall|k: Seq<char>|
            map_of(entries).contains_key(k)
                <==> exists|i: int| 0 <= i < entries.len() && (#[trigger] entries[i]).0 == k,
    decreases entries.len(),
{
    if entries.len() == 0 {
    } else {
        lemma_map_of_membership(entries.drop_last());
        assert forall|k: Seq<char>|
            map_of(entries).contains_key(k)
                <==> exists|i: int| 0 <= i < entries.len() && (#[trigger] entries[i]).0 == k by {
            if map_of(entries).contains_key(k) {
                if k == entries.last().0 {
                    assert(entries[entries.len() - 1].0 == k);
                } else {
                    assert(map_of(entries.drop_last()).contains_key(k));
                    assert(exists|i: int|
                        0 <= i < entries.drop_last().len()
                            && (#[trigger] entries.drop_last()[i]).0 == k);
                    let i = choose|i: int|
                        0 <= i < entries.drop_last().len()
                            && (#[trigger] entries.drop_last()[i]).0 == k;
                    assert(entries[i].0 == k);
                }
            }
            if exists|i: int| 0 <= i < entries.len() && (#[trigger] entries[i]).0 == k {
                let i = choose|i: int| 0 <= i < entries.len() && (#[trigger] entries[i]).0 == k;
                if i < entries.len() - 1 {
                    assert(entries.drop_last()[i].0 == k);
                }
            }
        }
    }
}

/// With no key stored twice, each record's key maps to that record's value.
pub proof fn lemma_map_of_value(entries: Seq<(Seq<char>, Seq<char>)>, j: int)
    requires
        unique_keys(entries),
        0 <= j < entries.len(),
    ensures
        map_of(entries).contains_key(entries[j].0),
        map_of(entries)[entries[j].0] == entries[j].1,
    decreases entries.len(),
{
    if j < entries.len() - 1 {
        assert(forall|i: int| 0 <= i < entries.drop_last().len()
            ==> entries.drop_last()[i] == entries[i]);
        assert(unique_keys(entries.drop_last()));
        lemma_map_of_value(entries.drop_last(), j);
        assert(entries[j].0 != entries.last().0);
    }
}

} // verus!

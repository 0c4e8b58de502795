//! The in-memory store.

use vstd::prelude::*;

use crate::format::{
    lemma_find_char_absent, lemma_find_char_is, lemma_map_of_membership, lemma_map_of_push,
    lemma_map_of_update, lemma_map_of_value, lemma_parse_contents_valid, lemma_round_trip,
    lemma_serialize_push, map_of, parse_contents, parse_line, parse_lines, serialize_entries,
    split_lines, unique_keys, valid_entries, valid_text,
};

verus! {

/// Why a load was refused: some line of the backing file did not hold
/// exactly two tab-separated fields.
#[derive(Clone, Copy, Debug, PartialEq, Eq)]
pub enum LoadError {
    MalformedRecord,
}

/// A complete snapshot of the key-value pairs of one backing file, held in
/// memory. The backing path is carried along so that the caller knows where
/// to write the flushed contents back.
pub struct Database {
    path: String,
    store: Vec<(String, String)>,
}

/// The views of the stored pairs, in storage order.
pub open spec fn entries_view(pairs: Seq<(String, String)>) -> Seq<(Seq<char>, Seq<char>)> {
    pairs.map_values(|p: (String, String)| (p.0@, p.1@))
}

impl Database {
    /// The stored records, in storage order. The order is a representation
    /// detail: the file on disk is a snapshot, not a log.
    pub closed spec fn entries(self) -> Seq<(Seq<char>, Seq<char>)> {
        entries_view(self.store@)
    }

    /// The backing path.
    pub closed spec fn spec_path(self) -> Seq<char> {
        self.path@
    }

    /// Well-formedness: no key is stored twice, and every key and value is
    /// text that the record format can carry.
    pub open spec fn wf(self) -> bool {
        unique_keys(self.entries()) && valid_entries(self.entries())
    }
}

impl View for Database {
    type V = Map<Seq<char>, Seq<char>>;

    /// The mapping the store holds: each stored key to its value.
    closed spec fn view(&self) -> Map<Seq<char>, Seq<char>> {
        map_of(self.entries())
    }
}

/// What the whole parse yields once some prefix of the contents has already
/// been parsed to `done`: the records of `done` followed by those of the
/// remaining contents `s`, or failure if `s` is malformed.
spec fn parse_remaining(
    done: Seq<(Seq<char>, Seq<char>)>,
    s: Seq<char>,
) -> Option<Seq<(Seq<char>, Seq<char>)>> {
    match parse_contents(s) {
        Some(rest) => Some(done + rest),
        None => None,
    }
}

/// Parses a backing file's contents into its records, in file order, without
/// resolving duplicate keys. Fails if any line does not hold exactly two
/// tab-separated fields.
#[verifier::loop_isolation(false)]
#[verifier::rlimit(100)]
fn parse_records(s: &str) -> (r: Result<Vec<(String, String)>, LoadError>)
    ensures
        match r {
            Ok(v) => parse_contents(s@) == Some(entries_view(v@)),
            Err(_) => parse_contents(s@) is None,
        },
{
    let n = s.unicode_len();
    let mut out: Vec<(String, String)> = Vec::new();
    let mut i: usize = 0;
    proof {
        assert(s@.skip(0) =~= s@);
        if parse_contents(s@) is Some {
            assert(entries_view(out@) + parse_contents(s@)->Some_0
                =~= parse_contents(s@)->Some_0);
        }
    }
    while i < n
        invariant
            i <= n,
            parse_remaining(entries_view(out@), s@.skip(i as int)) == parse_contents(s@),
        decreases n - i,
    {
        let ghost suffix = s@.skip(i as int);
        let ghost done = entries_view(out@);

        // Scan to the end of the current line.
        let mut e: usize = i;
        while e < n && s.get_char(e) != '\n'
            invariant
                i <= e <= n,
                forall|j: int| i <= j < e ==> s@[j] != '\n',
            decreases n - e,
        {
            e = e + 1;
        }
        let ghost line = s@.subrange(i as int, e as int);
        proof {
            assert(forall|j: int| 0 <= j < e - i ==> suffix[j] == s@[j + i]);
            if e < n {
                lemma_find_char_is(suffix, '\n', e - i);
            } else {
                lemma_find_char_absent(suffix, '\n');
            }
            assert(suffix.take(e - i) =~= line);
        }
        let ghost tail_lines = (if e < n {
            split_lines(s@.skip(e + 1))
        } else {
            Seq::<Seq<char>>::empty()
        });
        proof {
            if e < n {
                assert(suffix.skip(e - i + 1) =~= s@.skip(e + 1));
                assert(split_lines(suffix) == seq![line] + tail_lines);
            } else {
                assert(suffix =~= line);
                assert(split_lines(suffix) == seq![suffix]);
                assert(seq![line] + tail_lines =~= seq![suffix]);
            }
            assert((seq![line] + tail_lines)[0] == line);
            assert((seq![line] + tail_lines).drop_first() =~= tail_lines);
        }

        // Scan for the first tab of the line.
        let mut t: usize = i;
        while t < e && s.get_char(t) != '\t'
            invariant
                i <= t <= e,
                forall|j: int| i <= j < t ==> s@[j] != '\t',
            decreases e - t,
        {
            t = t + 1;
        }
        proof {
            assert(forall|j: int| 0 <= j < e - i ==> line[j] == s@[j + i]);
        }
        if t == e {
            // No delimiter: the line is a single field, a malformed record.
            proof {
                lemma_find_char_absent(line, '\t');
                assert(parse_line(line) is None);
                assert(parse_lines(split_lines(suffix)) is None);
            }
            return Err(LoadError::MalformedRecord);
        }
        proof {
            lemma_find_char_is(line, '\t', t - i);
        }
        let ghost val = s@.subrange(t + 1, e as int);
        proof {
            assert(line.skip(t - i + 1) =~= val);
            assert(forall|j: int| 0 <= j < e - t - 1 ==> val[j] == s@[j + t + 1]);
        }

        // Scan for a second tab, which would mean three or more fields.
        let mut u: usize = t + 1;
        while u < e && s.get_char(u) != '\t'
            invariant
                t + 1 <= u <= e,
                forall|j: int| t + 1 <= j < u ==> s@[j] != '\t',
            decreases e - u,
        {
            u = u + 1;
        }
        if u < e {
            proof {
                lemma_find_char_is(val, '\t', u - t - 1);
                assert(parse_line(line) is None);
                assert(parse_lines(split_lines(suffix)) is None);
            }
            return Err(LoadError::MalformedRecord);
        }
        proof {
            lemma_find_char_absent(val, '\t');
            assert(line.take(t - i) =~= s@.subrange(i as int, t as int));
            assert(parse_line(line) == Some((s@.subrange(i as int, t as int), val)));
        }

        let key = s.substring_char(i, t).to_owned();
        let value = s.substring_char(t + 1, e).to_owned();
        let ghost entry = (key@, value@);
        out.push((key, value));
        proof {
            assert(entries_view(out@) =~= done.push(entry));
        }
        i = if e < n {
            e + 1
        } else {
            n
        };
        proof {
            let new_suffix = s@.skip(i as int);
            if e == n {
                assert(new_suffix =~= Seq::<char>::empty());
                assert(split_lines(new_suffix) =~= Seq::<Seq<char>>::empty());
            }
            assert(parse_lines(tail_lines) == parse_contents(new_suffix));
            if parse_contents(new_suffix) is Some {
                let rest = parse_contents(new_suffix)->Some_0;
                assert(parse_contents(suffix) == Some(seq![entry] + rest));
                assert(done + (seq![entry] + rest) =~= done.push(entry) + rest);
            } else {
                assert(parse_contents(suffix) is None);
            }
        }
    }
    proof {
        assert(s@.skip(n as int) =~= Seq::<char>::empty());
        assert(split_lines(s@.skip(n as int)) =~= Seq::<Seq<char>>::empty());
        assert(entries_view(out@) + Seq::<(Seq<char>, Seq<char>)>::empty() =~= entries_view(out@));
    }
    Ok(out)
}

/// Character-for-character string equality.
#[verifier::loop_isolation(false)]
fn str_eq(a: &str, b: &str) -> (r: bool)
    ensures
        r == (a@ == b@),
{
    let na = a.unicode_len();
    let nb = b.unicode_len();
    if na != nb {
        return false;
    }
    let mut i: usize = 0;
    while i < na
        invariant
            i <= na,
            forall|j: int| 0 <= j < i ==> a@[j] == b@[j],
        decreases na - i,
    {
        if a.get_char(i) != b.get_char(i) {
            return false;
        }
        i = i + 1;
    }
    proof {
        assert(a@ =~= b@);
    }
    true
}

impl Database {
    /// Builds a store from a backing file's contents, read by the caller.
    /// Each line becomes one entry; where a key appears on several lines,
    /// the later line wins. Fails, yielding no store at all, exactly when
    /// some line does not hold exactly two tab-separated fields.
    #[verifier::loop_isolation(false)]
    pub fn load(path: String, contents: &str) -> (r: Result<Database, LoadError>)
        ensures
            match r {
                Ok(db) => {
                    &&& parse_contents(contents@) is Some
                    &&& db.wf()
                    &&& db@ == map_of(parse_contents(contents@)->Some_0)
                    &&& db.spec_path() == path@
                },
                Err(_) => parse_contents(contents@) is None,
            },
    {
        let records = match parse_records(contents) {
            Ok(v) => v,
            Err(e) => {
                return Err(e);
            },
        };
        let ghost p = path@;
        let ghost es = entries_view(records@);
        let mut db = Database { path, store: Vec::new() };
        proof {
            assert(db.entries() =~= Seq::<(Seq<char>, Seq<char>)>::empty());
            assert(db@ =~= map_of(es.take(0)));
            lemma_parse_contents_valid(contents@);
        }
        let n = records.len();
        let mut j: usize = 0;
        while j < n
            invariant
                j <= n,
                db.wf(),
                db@ == map_of(es.take(j as int)),
                db.spec_path() == p,
            decreases n - j,
        {
            let pair = &records[j];
            proof {
                assert(es[j as int] == (records@[j as int].0@, records@[j as int].1@));
                assert(valid_text(es[j as int].0) && valid_text(es[j as int].1));
            }
            db.insert(pair.0.as_str(), pair.1.as_str());
            proof {
                assert(es.take(j + 1).drop_last() =~= es.take(j as int));
                assert(es.take(j + 1).last() == es[j as int]);
            }
            j = j + 1;
        }
        proof {
            assert(es.take(n as int) =~= es);
        }
        Ok(db)
    }

    /// Stores `value` under `key`, replacing any value stored there before;
    /// overwrite-or-create, so no key is ever stored twice. Touches only the
    /// in-memory mapping, never the backing file. Only text the record
    /// format can carry is accepted — a tab or newline in a key or value
    /// would corrupt the file on the next load, so it is rejected here at
    /// the mutation boundary rather than deferred.
    #[verifier::loop_isolation(false)]
    pub fn insert(&mut self, key: &str, value: &str)
        requires
            old(self).wf(),
            valid_text(key@),
            valid_text(value@),
        ensures
            final(self).wf(),
            final(self)@ == old(self)@.insert(key@, value@),
            final(self).spec_path() == old(self).spec_path(),
    {
        let ghost es = self.entries();
        let n = self.store.len();
        let mut j: usize = 0;
        while j < n
            invariant
                j <= n,
                *self == *old(self),
                forall|l: int| 0 <= l < j ==> es[l].0 != key@,
            decreases n - j,
        {
            if str_eq(self.store[j].0.as_str(), key) {
                proof {
                    assert(es[j as int].0 == key@);
                }
                self.store[j].1 = value.to_owned();
                proof {
                    assert(self.entries() =~= es.update(j as int, (key@, value@)));
                    lemma_map_of_update(es, j as int, value@);
                }
                return;
            }
            j = j + 1;
        }
        self.store.push((key.to_owned(), value.to_owned()));
        proof {
            assert(self.entries() =~= es.push((key@, value@)));
            lemma_map_of_push(es, key@, value@);
        }
    }

    /// Looks up the value stored under `key`, or signals not-found with
    /// `None`. Never fails and never mutates anything.
    #[verifier::loop_isolation(false)]
    pub fn query(&self, key: &str) -> (r: Option<String>)
        requires
            self.wf(),
        ensures
            match r {
                Some(v) => self@.contains_key(key@) && v@ == self@[key@],
                None => !self@.contains_key(key@),
            },
    {
        let ghost es = self.entries();
        let n = self.store.len();
        let mut j: usize = 0;
        while j < n
            invariant
                j <= n,
                forall|l: int| 0 <= l < j ==> es[l].0 != key@,
            decreases n - j,
        {
            if str_eq(self.store[j].0.as_str(), key) {
                proof {
                    assert(es[j as int].0 == key@);
                    lemma_map_of_value(es, j as int);
                }
                return Some(self.store[j].1.clone());
            }
            j = j + 1;
        }
        proof {
            lemma_map_of_membership(es);
            if self@.contains_key(key@) {
                let l = choose|l: int| 0 <= l < es.len() && (#[trigger] es[l]).0 == key@;
                assert(false);
            }
        }
        None
    }

    /// The serialized form of the whole mapping: one line per entry, ready
    /// to overwrite the backing file's full content. Parsing it back yields
    /// exactly the store's entries, so a flushed file always loads, and
    /// loads to the mapping that was flushed.
    #[verifier::loop_isolation(false)]
    pub fn snapshot(&self) -> (r: String)
        requires
            self.wf(),
        ensures
            r@ == serialize_entries(self.entries()),
            parse_contents(r@) == Some(self.entries()),
            map_of(self.entries()) == self@,
    {
        let ghost es = self.entries();
        let mut r = String::new();
        let n = self.store.len();
        let mut j: usize = 0;
        while j < n
            invariant
                j <= n,
                r@ == serialize_entries(es.take(j as int)),
            decreases n - j,
        {
            if j > 0 {
                r.append("\n");
            }
            r.append(self.store[j].0.as_str());
            r.append("\t");
            r.append(self.store[j].1.as_str());
            proof {
                reveal_strlit("\n");
                reveal_strlit("\t");
                assert("\t"@ =~= seq!['\t']);
                assert("\n"@ =~= seq!['\n']);
                lemma_serialize_push(es.take(j as int), es[j as int]);
                assert(es.take(j + 1) =~= es.take(j as int).push(es[j as int]));
                assert(r@ =~= serialize_entries(es.take(j + 1)));
            }
            j = j + 1;
        }
        proof {
            assert(es.take(n as int) =~= es);
            lemma_round_trip(es);
        }
        r
    }

    /// The backing path this store was loaded from, where a flush is to be
    /// written.
    pub fn path(&self) -> (r: &str)
        ensures
            r@ == self.spec_path(),
    {
        self.path.as_str()
    }

    /// The number of entries held, zero exactly for the empty mapping.
    pub fn len(&self) -> (r: usize)
        requires
            self.wf(),
        ensures
            r == self.entries().len(),
            (r == 0 <==> self@ == Map::<Seq<char>, Seq<char>>::empty()),
    {
        proof {
            if self.store@.len() > 0 {
                lemma_map_of_value(self.entries(), 0);
                assert(!Map::<Seq<char>, Seq<char>>::empty().contains_key(self.entries()[0].0));
            } else {
                assert(self.entries() =~= Seq::<(Seq<char>, Seq<char>)>::empty());
                assert(self@ =~= Map::<Seq<char>, Seq<char>>::empty());
            }
        }
        self.store.len()
    }
}

/// Round trip: a well-formed store's serialized entries parse back to
/// exactly those entries, and their mapping is the store's mapping. With
/// `load`'s contract this says that flushing a store and reopening the
/// written file always succeeds and yields an equal mapping.
pub proof fn lemma_store_round_trip(db: Database)
    requires
        db.wf(),
    ensures
        parse_contents(serialize_entries(db.entries())) == Some(db.entries()),
        map_of(db.entries()) == db@,
{
    lemma_round_trip(db.entries());
}

/// Inserting at one key twice keeps only the later value: the mapping after
/// storing `a` then `b` under `k` is the one after storing `b` alone, so
/// there is never more than one entry for a key.
pub proof fn lemma_overwrite(m: Map<Seq<char>, Seq<char>>, k: Seq<char>, a: Seq<char>, b: Seq<char>)
    ensures
        m.insert(k, a).insert(k, b) == m.insert(k, b),
{
    assert(m.insert(k, a).insert(k, b) =~= m.insert(k, b));
}

} // verus!

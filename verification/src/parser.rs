//! The `.SRCINFO` document parser: line-oriented key/value extraction into
//! an insertion-ordered document, validation of required and single-valued
//! keys, and the typed accessors over the parsed document.

use vstd::prelude::*;

use crate::keys::array_key;
use crate::keys::base_key;
use crate::keys::base_key_of;
use crate::keys::ext_match;
use crate::keys::is_array_key;
use crate::keys::extendable_key;
use crate::keys::is_extendable_key;
use crate::keys::is_string_key;
use crate::keys::matches_extension;
use crate::keys::required_key;
use crate::keys::required_key_table;
use crate::keys::required_keys;
use crate::keys::string_key;
use crate::keys::string_key_table;
use crate::keys::string_keys;
use crate::text::find_first;
use crate::text::find_sub;
use crate::text::lemma_find_from_some;
use crate::text::lemma_filter_push;
use crate::text::remove_char;
use crate::text::split_char;
use crate::text::split_str;
use crate::text::str_eq;
use crate::text::without_char;

verus! {

/// The mathematical model of a parsed document: key and value views in
/// insertion order, one entry per distinct key.
pub type Doc = Seq<(Seq<char>, Seq<Seq<char>>)>;

/// A failed parse.  `line_num` is the 1-based line of a line-level failure
/// and absent for a document-level one.
#[derive(Debug)]
pub struct ParserError {
    /// A message describing the parsing error.
    pub msg: String,
    /// The 1-based line the error occurred on, or nothing when the document
    /// as a whole is at fault.
    pub line_num: Option<usize>,
}

/// One parsed key with its accumulated values, in order of appearance.
#[derive(Debug)]
struct Entry {
    key: String,
    values: Vec<String>,
}

impl View for Entry {
    type V = (Seq<char>, Seq<Seq<char>>);

    closed spec fn view(&self) -> (Seq<char>, Seq<Seq<char>>) {
        (self.key@, self.values.deep_view())
    }
}

/// A successfully parsed `.SRCINFO` document.
#[derive(Debug)]
pub struct SrcInfo {
    entries: Vec<Entry>,
}

spec fn doc_of(es: Seq<Entry>) -> Doc {
    Seq::new(es.len(), |i: int| es[i]@)
}

impl View for SrcInfo {
    type V = Doc;

    closed spec fn view(&self) -> Doc {
        doc_of(self.entries@)
    }
}

/// Every key of the document holds at least one value.
pub open spec fn doc_wf(d: Doc) -> bool {
    forall|i: int| 0 <= i < d.len() ==> #[trigger] d[i].1.len() >= 1
}

impl SrcInfo {
    #[verifier::type_invariant]
    spec fn inv(self) -> bool {
        doc_wf(self@)
    }
}

/// Index of the first entry with key `k`, or `d.len()` when there is none.
pub open spec fn doc_index_of(d: Doc, k: Seq<char>) -> int
    decreases d.len(),
{
    if d.len() == 0 {
        0
    } else if d.first().0 == k {
        0
    } else {
        1 + doc_index_of(d.drop_first(), k)
    }
}

pub open spec fn doc_has_key(d: Doc, k: Seq<char>) -> bool {
    doc_index_of(d, k) < d.len()
}

pub open spec fn doc_values(d: Doc, k: Seq<char>) -> Seq<Seq<char>> {
    d[doc_index_of(d, k)].1
}

/// Append `v` under key `k`: to the entry holding `k` if there is one, as a
/// fresh entry at the end otherwise.
pub open spec fn doc_upsert(d: Doc, k: Seq<char>, v: Seq<char>) -> Doc {
    if doc_has_key(d, k) {
        d.update(doc_index_of(d, k), (k, doc_values(d, k).push(v)))
    } else {
        d.push((k, seq![v]))
    }
}

pub proof fn lemma_doc_index(d: Doc, k: Seq<char>)
    ensures
        0 <= doc_index_of(d, k) <= d.len(),
        doc_index_of(d, k) < d.len() ==> d[doc_index_of(d, k)].0 == k,
        forall|i: int| 0 <= i < doc_index_of(d, k) ==> (#[trigger] d[i]).0 != k,
    decreases d.len(),
{
    if d.len() > 0 && d.first().0 != k {
        lemma_doc_index(d.drop_first(), k);
        assert forall|i: int| 0 <= i < doc_index_of(d, k) implies (#[trigger] d[i]).0 != k by {
            if i >= 1 {
                assert(d.drop_first()[i - 1] == d[i]);
                assert(d.drop_first()[i - 1].0 != k);
            }
        }
    }
}

/// `doc_index_of` is the unique position satisfying its characterization.
pub proof fn lemma_doc_index_is(d: Doc, k: Seq<char>, j: int)
    requires
        0 <= j <= d.len(),
        j < d.len() ==> d[j].0 == k,
        forall|i: int| 0 <= i < j ==> (#[trigger] d[i]).0 != k,
    ensures
        doc_index_of(d, k) == j,
{
    lemma_doc_index(d, k);
    let x = doc_index_of(d, k);
    if x < j {
        assert(d[x].0 != k);
    }
    if j < x {
        assert(d[j].0 != k);
    }
}

/// The line `l` carries no content: empty, or a comment.
pub open spec fn line_skip(l: Seq<char>) -> bool {
    l.len() == 0 || l[0] == '#'
}

/// The key/value delimiter.
pub open spec fn delim_seq() -> Seq<char> {
    " = "@
}

/// Tabs are stripped from a line before it is interpreted.
pub open spec fn line_stripped(l: Seq<char>) -> Seq<char> {
    without_char(l, '\t')
}

/// Position of the first delimiter of the stripped line, if any.
pub open spec fn line_delim(l: Seq<char>) -> Option<int> {
    find_sub(line_stripped(l), delim_seq())
}

/// A content line with no delimiter: the one line-level failure.
pub open spec fn line_fail(l: Seq<char>) -> bool {
    !line_skip(l) && line_delim(l) is None
}

/// A content line with a delimiter.
pub open spec fn line_ok(l: Seq<char>) -> bool {
    !line_skip(l) && line_delim(l) is Some
}

/// The text before the first delimiter of the stripped line.
pub open spec fn line_key(l: Seq<char>) -> Seq<char> {
    line_stripped(l).subrange(0, line_delim(l)->0)
}

/// The text after the first delimiter of the stripped line, later
/// delimiters included verbatim.
pub open spec fn line_value(l: Seq<char>) -> Seq<char> {
    line_stripped(l).subrange(
        line_delim(l)->0 + delim_seq().len(),
        line_stripped(l).len() as int,
    )
}

/// The document accumulated from the lines, failing lines contributing
/// nothing.
pub open spec fn accum(lns: Seq<Seq<char>>) -> Doc
    decreases lns.len(),
{
    if lns.len() == 0 {
        Seq::empty()
    } else {
        let prev = accum(lns.drop_last());
        let l = lns.last();
        if line_ok(l) {
            doc_upsert(prev, line_key(l), line_value(l))
        } else {
            prev
        }
    }
}

/// Index of the first failing line, if any.
pub open spec fn first_fail(lns: Seq<Seq<char>>) -> Option<int>
    decreases lns.len(),
{
    if lns.len() == 0 {
        None
    } else {
        match first_fail(lns.drop_last()) {
            Some(i) => Some(i),
            None => if line_fail(lns.last()) {
                Some(lns.len() - 1)
            } else {
                None
            },
        }
    }
}

pub proof fn lemma_no_fail(lns: Seq<Seq<char>>)
    requires
        forall|k: int| 0 <= k < lns.len() ==> !line_fail(#[trigger] lns[k]),
    ensures
        first_fail(lns) == None::<int>,
    decreases lns.len(),
{
    if lns.len() > 0 {
        assert(forall|k: int| 0 <= k < lns.drop_last().len() ==> #[trigger] lns.drop_last()[k]
            == lns[k]);
        lemma_no_fail(lns.drop_last());
    }
}

pub proof fn lemma_first_fail_at(lns: Seq<Seq<char>>, i: int)
    requires
        0 <= i < lns.len(),
        forall|k: int| 0 <= k < i ==> !line_fail(#[trigger] lns[k]),
        line_fail(lns[i]),
    ensures
        first_fail(lns) == Some(i),
    decreases lns.len(),
{
    assert(forall|k: int| 0 <= k < lns.drop_last().len() ==> #[trigger] lns.drop_last()[k]
        == lns[k]);
    if i == lns.len() - 1 {
        lemma_no_fail(lns.drop_last());
    } else {
        lemma_first_fail_at(lns.drop_last(), i);
    }
}

/// One accumulation step at the end of a prefix of the lines.
pub proof fn lemma_accum_snoc(lns: Seq<Seq<char>>, i: int)
    requires
        0 <= i < lns.len(),
    ensures
        accum(lns.subrange(0, i + 1)) == ({
            let prev = accum(lns.subrange(0, i));
            if line_ok(lns[i]) {
                doc_upsert(prev, line_key(lns[i]), line_value(lns[i]))
            } else {
                prev
            }
        }),
{
    assert(lns.subrange(0, i + 1).drop_last() =~= lns.subrange(0, i));
    assert(lns.subrange(0, i + 1).last() == lns[i]);
}

/// The first required key the document lacks, searching the required table
/// from position `i` on.
pub open spec fn first_missing_from(d: Doc, i: int) -> Option<Seq<char>>
    decreases required_keys().len() - i,
{
    if i < 0 || i >= required_keys().len() {
        None
    } else if !doc_has_key(d, required_keys()[i]) {
        Some(required_keys()[i])
    } else {
        first_missing_from(d, i + 1)
    }
}

/// The first single-valued key holding more than one value, searching the
/// string-key table from position `i` on.
pub open spec fn first_dup_from(d: Doc, i: int) -> Option<Seq<char>>
    decreases string_keys().len() - i,
{
    if i < 0 || i >= string_keys().len() {
        None
    } else if doc_has_key(d, string_keys()[i]) && doc_values(d, string_keys()[i]).len() > 1 {
        Some(string_keys()[i])
    } else {
        first_dup_from(d, i + 1)
    }
}

/// The outcome of parsing a document.
pub enum ParseOutcome {
    /// 0-based index of the first line with no delimiter.
    BadLine(int),
    /// The first required key, in table order, missing from the document.
    MissingKey(Seq<char>),
    /// The first single-valued key, in table order, holding several values.
    DupKey(Seq<char>),
    /// The accumulated document of a successful parse.
    Good(Doc),
}

/// What parsing `text` must yield: the first failing line wins, then the
/// first missing required key, then the first duplicated single-valued key;
/// otherwise the accumulated document.
pub open spec fn parse_spec(text: Seq<char>) -> ParseOutcome {
    let lns = split_char(text, '\n');
    match first_fail(lns) {
        Some(i) => ParseOutcome::BadLine(i),
        None => {
            let d = accum(lns);
            match first_missing_from(d, 0) {
                Some(k) => ParseOutcome::MissingKey(k),
                None => match first_dup_from(d, 0) {
                    Some(k) => ParseOutcome::DupKey(k),
                    None => ParseOutcome::Good(d),
                },
            }
        },
    }
}

pub open spec fn delim_msg() -> Seq<char> {
    "No ' = ' delimiter found."@
}

pub open spec fn missing_msg(k: Seq<char>) -> Seq<char> {
    "Required key '"@ + k + "' not found."@
}

pub open spec fn dup_msg(k: Seq<char>) -> Seq<char> {
    "Key '"@ + k + "' is present more than once when it is not allowed to."@
}

/// Index of the entry holding `key`, if any.
fn find_key(entries: &Vec<Entry>, key: &str) -> (r: Option<usize>)
    ensures
        match r {
            Some(j) => j < entries@.len() && doc_index_of(doc_of(entries@), key@) == j as int,
            None => doc_index_of(doc_of(entries@), key@) == entries@.len(),
        },
{
    let n = entries.len();
    for j in 0..n
        invariant
            n == entries@.len(),
            forall|i: int| 0 <= i < j ==> (#[trigger] entries@[i]).key@ != key@,
    {
        if str_eq(entries[j].key.as_str(), key) {
            proof {
                assert(doc_of(entries@)[j as int].0 == key@);
                assert(forall|i: int| 0 <= i < j ==> (#[trigger] doc_of(entries@)[i]).0 != key@);
                lemma_doc_index_is(doc_of(entries@), key@, j as int);
            }
            return Some(j);
        }
    }
    proof {
        assert(forall|i: int| 0 <= i < entries@.len() ==> (#[trigger] doc_of(entries@)[i]).0
            != key@);
        lemma_doc_index_is(doc_of(entries@), key@, entries@.len() as int);
    }
    None
}

/// Append `value` under `key`, to the entry already holding `key` or as a
/// new entry at the end.
fn upsert(entries: &mut Vec<Entry>, key: String, value: String)
    ensures
        doc_of(final(entries)@) == doc_upsert(doc_of(old(entries)@), key@, value@),
{
    let ghost d = doc_of(entries@);
    proof {
        lemma_doc_index(d, key@);
    }
    match find_key(entries, key.as_str()) {
        Some(j) => {
            let mut e = entries.remove(j);
            let ghost old_vals = e.values.deep_view();
            e.values.push(value);
            proof {
                assert(e.values.deep_view() =~= old_vals.push(value@));
            }
            entries.insert(j, e);
            proof {
                assert(doc_of(entries@) =~= d.update(j as int, (key@, doc_values(d, key@).push(
                    value@,
                ))));
            }
        },
        None => {
            let mut vals: Vec<String> = Vec::new();
            vals.push(value);
            proof {
                assert(vals.deep_view() =~= seq![value@]);
            }
            entries.push(Entry { key, values: vals });
            proof {
                assert(doc_of(entries@) =~= d.push((key@, seq![value@])));
            }
        },
    }
}

impl SrcInfo {
    /// Parse the text of a `.SRCINFO` file.
    ///
    /// Comment and blank lines are skipped; tabs are stripped; each other
    /// line must carry the ` = ` delimiter and contributes one value to its
    /// key.  After the scan, every required key must be present and every
    /// single-valued key must hold exactly one value.
    pub fn new(content: &str) -> (r: Result<SrcInfo, ParserError>)
        ensures
            parse_spec(content@) is Good ==> r is Ok && r->Ok_0@ == parse_spec(content@)->Good_0,
            parse_spec(content@) is BadLine ==> r is Err && (r->Err_0).msg@ == delim_msg() && (
            r->Err_0).line_num is Some && (r->Err_0).line_num->0 as int == parse_spec(
                content@,
            )->BadLine_0 + 1,
            parse_spec(content@) is MissingKey ==> r is Err && (r->Err_0).msg@ == missing_msg(
                parse_spec(content@)->MissingKey_0,
            ) && (r->Err_0).line_num is None,
            parse_spec(content@) is DupKey ==> r is Err && (r->Err_0).msg@ == dup_msg(
                parse_spec(content@)->DupKey_0,
            ) && (r->Err_0).line_num is None,
    {
        let ghost lns = split_char(content@, '\n');
        let lines = split_str(content, '\n');
        let n = lines.len();
        let mut entries: Vec<Entry> = Vec::new();
        proof {
            reveal_strlit(" = ");
            assert(lns.subrange(0, 0) =~= Seq::<Seq<char>>::empty());
        }
        for i in 0..n
            invariant
                n == lines@.len(),
                lines@.len() == lns.len(),
                lns == split_char(content@, '\n'),
                forall|k: int| 0 <= k < lns.len() ==> lines@[k]@ == #[trigger] lns[k],
                forall|k: int| 0 <= k < i ==> !line_fail(#[trigger] lns[k]),
                doc_of(entries@) == accum(lns.subrange(0, i as int)),
                doc_wf(doc_of(entries@)),
        {
            let ghost prev = doc_of(entries@);
            proof {
                reveal_strlit(" = ");
                lemma_accum_snoc(lns, i as int);
            }
            let line = &lines[i];
            let l_len = line.unicode_len();
            let skip = l_len == 0 || line.get_char(0) == '#';
            if skip {
                proof {
                    assert(line_skip(lns[i as int]));
                }
            } else {
                let stripped = remove_char(line.as_str(), '\t');
                let s_len = stripped.unicode_len();
                match find_first(stripped.as_str(), " = ") {
                    None => {
                        proof {
                            assert(line_fail(lns[i as int]));
                            lemma_first_fail_at(lns, i as int);
                        }
                        return Err(
                            ParserError {
                                msg: String::from_str("No ' = ' delimiter found."),
                                line_num: Some(i + 1),
                            },
                        );
                    },
                    Some(j) => {
                        proof {
                            lemma_find_from_some(stripped@, " = "@, 0, j as int);
                            assert(" = "@.len() == 3);
                        }
                        let key = String::from_str(stripped.as_str().substring_char(0, j));
                        let value = String::from_str(
                            stripped.as_str().substring_char(j + 3, s_len),
                        );
                        proof {
                            assert(key@ == line_key(lns[i as int]));
                            assert(value@ == line_value(lns[i as int]));
                            assert(line_ok(lns[i as int]));
                        }
                        upsert(&mut entries, key, value);
                        proof {
                            lemma_doc_index(prev, line_key(lns[i as int]));
                            assert(doc_wf(doc_of(entries@)));
                        }
                    },
                }
            }
        }
        proof {
            assert(lns.subrange(0, lns.len() as int) =~= lns);
            lemma_no_fail(lns);
        }
        let ghost d = doc_of(entries@);
        let req = required_key_table();
        let rn = req.len();
        for j in 0..rn
            invariant
                rn == req@.len(),
                rn == required_keys().len(),
                forall|k: int| 0 <= k < req@.len() ==> #[trigger] req@[k]@ == required_keys()[k],
                d == doc_of(entries@),
                d == accum(lns),
                first_fail(lns) == None::<int>,
                lns == split_char(content@, '\n'),
                doc_wf(d),
                first_missing_from(d, 0) == first_missing_from(d, j as int),
        {
            match find_key(&entries, req[j]) {
                None => {
                    proof {
                        assert(!doc_has_key(d, required_keys()[j as int]));
                        assert(first_missing_from(d, j as int) == Some(
                            required_keys()[j as int],
                        ));
                    }
                    let msg = String::from_str("Required key '").concat(req[j]).concat(
                        "' not found.",
                    );
                    return Err(ParserError { msg, line_num: None });
                },
                Some(_) => {
                    proof {
                        assert(doc_has_key(d, required_keys()[j as int]));
                    }
                },
            }
        }
        let st = string_key_table();
        let sn = st.len();
        for j in 0..sn
            invariant
                sn == st@.len(),
                sn == string_keys().len(),
                forall|k: int| 0 <= k < st@.len() ==> #[trigger] st@[k]@ == string_keys()[k],
                d == doc_of(entries@),
                d == accum(lns),
                first_fail(lns) == None::<int>,
                first_missing_from(d, 0) == None::<Seq<char>>,
                lns == split_char(content@, '\n'),
                doc_wf(d),
                first_dup_from(d, 0) == first_dup_from(d, j as int),
        {
            match find_key(&entries, st[j]) {
                Some(ix) => {
                    if entries[ix].values.len() > 1 {
                        proof {
                            assert(doc_values(d, string_keys()[j as int]).len() > 1);
                            assert(first_dup_from(d, j as int) == Some(string_keys()[j as int]));
                        }
                        let msg = String::from_str("Key '").concat(st[j]).concat(
                            "' is present more than once when it is not allowed to.",
                        );
                        return Err(ParserError { msg, line_num: None });
                    }
                    proof {
                        assert(doc_values(d, string_keys()[j as int]).len()
                            == entries@[ix as int].values.deep_view().len());
                    }
                },
                None => {
                    proof {
                        assert(!doc_has_key(d, string_keys()[j as int]));
                    }
                },
            }
        }
        proof {
            assert(parse_spec(content@) is Good);
        }
        Ok(SrcInfo { entries })
    }
}

/// `k` resolves to a base key classified as single-valued.
pub open spec fn resolves_to_string(k: Seq<char>) -> bool {
    match base_key_of(k) {
        Some(b) => string_key(b),
        None => false,
    }
}

/// `k` resolves to a base key classified as array-valued.
pub open spec fn resolves_to_array(k: Seq<char>) -> bool {
    match base_key_of(k) {
        Some(b) => array_key(b),
        None => false,
    }
}

/// What `get_string` yields: the first stored value under the exact key
/// `k`, provided `k` resolves to a single-valued base key and is present.
pub open spec fn get_string_spec(d: Doc, k: Seq<char>) -> Option<Seq<char>> {
    if resolves_to_string(k) && doc_has_key(d, k) {
        Some(doc_values(d, k)[0])
    } else {
        None
    }
}

/// What `get_array` yields: all stored values under the exact key `k`,
/// provided `k` resolves to an array-valued base key and is present.
pub open spec fn get_array_spec(d: Doc, k: Seq<char>) -> Option<Seq<Seq<char>>> {
    if resolves_to_array(k) && doc_has_key(d, k) {
        Some(doc_values(d, k))
    } else {
        None
    }
}

/// The stored key names, in insertion order.
pub open spec fn doc_keys(d: Doc) -> Seq<Seq<char>> {
    d.map_values(|e: (Seq<char>, Seq<Seq<char>>)| e.0)
}

/// The predicate selecting names that are `k` or one of its extensions.
pub open spec fn ext_pred(k: Seq<char>) -> spec_fn(Seq<char>) -> bool {
    |nm: Seq<char>| ext_match(nm, k)
}

/// The stored key names matching `k` or one of its extensions, in storage
/// order.
pub open spec fn matching_keys(d: Doc, k: Seq<char>) -> Seq<Seq<char>> {
    doc_keys(d).filter(ext_pred(k))
}

/// What `get_extended_values` yields: the matching stored key names, absent
/// when `k` is not extendable or nothing matches.
pub open spec fn get_extended_spec(d: Doc, k: Seq<char>) -> Option<Seq<Seq<char>>> {
    if extendable_key(k) && matching_keys(d, k).len() > 0 {
        Some(matching_keys(d, k))
    } else {
        None
    }
}

impl SrcInfo {
    /// Value of a single-valued (possibly qualified) key, when the key
    /// resolves to a string key and is present in the document.
    pub fn get_string(&self, key: &str) -> (r: Option<&String>)
        ensures
            r is Some <==> get_string_spec(self@, key@) is Some,
            r is Some ==> r->0@ == get_string_spec(self@, key@)->0,
    {
        proof {
            use_type_invariant(&*self);
        }
        let resolved = match base_key(key) {
            Some(b) => is_string_key(b),
            None => false,
        };
        if !resolved {
            return None;
        }
        match find_key(&self.entries, key) {
            None => None,
            Some(j) => {
                let e = &self.entries[j];
                proof {
                    assert(doc_values(self@, key@) == e.values.deep_view());
                    assert(self@[j as int].1.len() >= 1);
                }
                Some(&e.values[0])
            },
        }
    }

    /// Values of an array-valued (possibly qualified) key, when the key
    /// resolves to an array key and is present in the document.
    pub fn get_array(&self, key: &str) -> (r: Option<&Vec<String>>)
        ensures
            r is Some <==> get_array_spec(self@, key@) is Some,
            r is Some ==> r->0.deep_view() == get_array_spec(self@, key@)->0,
    {
        let resolved = match base_key(key) {
            Some(b) => is_array_key(b),
            None => false,
        };
        if !resolved {
            return None;
        }
        match find_key(&self.entries, key) {
            None => None,
            Some(j) => {
                let e = &self.entries[j];
                proof {
                    assert(doc_values(self@, key@) == e.values.deep_view());
                }
                Some(&e.values)
            },
        }
    }

    /// The stored key names that are `key` itself or carry it in one of its
    /// three extension shapes, when `key` is extendable and at least one
    /// name matches.
    pub fn get_extended_values(&self, key: &str) -> (r: Option<Vec<String>>)
        ensures
            r is Some <==> get_extended_spec(self@, key@) is Some,
            r is Some ==> r->0.deep_view() == get_extended_spec(self@, key@)->0,
    {
        if !is_extendable_key(key) {
            return None;
        }
        let n = self.entries.len();
        let mut out: Vec<String> = Vec::new();
        proof {
            assert(self@.subrange(0, 0) =~= Seq::<(Seq<char>, Seq<Seq<char>>)>::empty());
            assert(doc_keys(self@.subrange(0, 0)) =~= Seq::<Seq<char>>::empty());
            assert(Seq::<Seq<char>>::empty().filter(ext_pred(key@)) =~= Seq::<Seq<char>>::empty());
            assert(out.deep_view() =~= Seq::<Seq<char>>::empty());
        }
        for j in 0..n
            invariant
                n == self.entries@.len(),
                self@.len() == self.entries@.len(),
                out.deep_view() == matching_keys(self@.subrange(0, j as int), key@),
        {
            let ghost pre_keys = doc_keys(self@.subrange(0, j as int));
            let ghost pre_out = out.deep_view();
            proof {
                assert(doc_keys(self@.subrange(0, j + 1)) =~= pre_keys.push(self@[j as int].0));
                lemma_filter_push(pre_keys, ext_pred(key@), self@[j as int].0);
            }
            let e = &self.entries[j];
            if matches_extension(e.key.as_str(), key) {
                out.push(e.key.clone());
                proof {
                    assert(out.deep_view() =~= pre_out.push(self@[j as int].0));
                }
            }
        }
        proof {
            assert(self@.subrange(0, n as int) =~= self@);
        }
        if out.len() == 0 {
            proof {
                assert(matching_keys(self@, key@).len() == out.deep_view().len());
            }
            None
        } else {
            Some(out)
        }
    }
}

/// The predicate selecting the lines that contribute a value to key `k`.
pub open spec fn good_pred(k: Seq<char>) -> spec_fn(Seq<char>) -> bool {
    |l: Seq<char>| line_ok(l) && line_key(l) == k
}

/// The lines contributing a value to key `k`, in order.
pub open spec fn lines_for_key(lns: Seq<Seq<char>>, k: Seq<char>) -> Seq<Seq<char>> {
    lns.filter(good_pred(k))
}

pub open spec fn line_value_fn() -> spec_fn(Seq<char>) -> Seq<char> {
    |l: Seq<char>| line_value(l)
}

/// The values the lines contribute to key `k`, in order.
pub open spec fn values_for_key(lns: Seq<Seq<char>>, k: Seq<char>) -> Seq<Seq<char>> {
    lines_for_key(lns, k).map_values(line_value_fn())
}

/// After appending under `k`, the document holds `k`, with the old values
/// plus `v` or with `v` alone.
pub proof fn lemma_upsert_same(d: Doc, k: Seq<char>, v: Seq<char>)
    ensures
        doc_has_key(doc_upsert(d, k, v), k),
        doc_values(doc_upsert(d, k, v), k) == if doc_has_key(d, k) {
            doc_values(d, k).push(v)
        } else {
            seq![v]
        },
{
    lemma_doc_index(d, k);
    let j = doc_index_of(d, k);
    if doc_has_key(d, k) {
        let d2 = d.update(j, (k, doc_values(d, k).push(v)));
        lemma_doc_index_is(d2, k, j);
    } else {
        let d2 = d.push((k, seq![v]));
        lemma_doc_index_is(d2, k, d.len() as int);
    }
}

/// Appending under `k` leaves every other key's presence and values alone.
pub proof fn lemma_upsert_other(d: Doc, k: Seq<char>, v: Seq<char>, k2: Seq<char>)
    requires
        k2 != k,
    ensures
        doc_has_key(doc_upsert(d, k, v), k2) == doc_has_key(d, k2),
        doc_has_key(d, k2) ==> doc_values(doc_upsert(d, k, v), k2) == doc_values(d, k2),
{
    lemma_doc_index(d, k);
    lemma_doc_index(d, k2);
    let j = doc_index_of(d, k);
    let j2 = doc_index_of(d, k2);
    if doc_has_key(d, k) {
        let d2 = d.update(j, (k, doc_values(d, k).push(v)));
        lemma_doc_index_is(d2, k2, j2);
    } else {
        let d2 = d.push((k, seq![v]));
        if doc_has_key(d, k2) {
            lemma_doc_index_is(d2, k2, j2);
        } else {
            lemma_doc_index_is(d2, k2, d2.len() as int);
        }
    }
}

/// Round-trip at the document level: a key is present exactly when some
/// line contributes to it, and then its stored values are exactly the
/// contributed line values, in order.
pub proof fn lemma_accum_values(lns: Seq<Seq<char>>, k: Seq<char>)
    ensures
        doc_has_key(accum(lns), k) <==> values_for_key(lns, k).len() > 0,
        doc_has_key(accum(lns), k) ==> doc_values(accum(lns), k) == values_for_key(lns, k),
    decreases lns.len(),
{
    if lns.len() == 0 {
        crate::text::lemma_filter_empty(lns, good_pred(k));
    } else {
        let pre = lns.drop_last();
        let l = lns.last();
        lemma_accum_values(pre, k);
        assert(lns =~= pre.push(l));
        lemma_filter_push(pre, good_pred(k), l);
        let dpre = accum(pre);
        if line_ok(l) && line_key(l) == k {
            assert(lines_for_key(lns, k) == lines_for_key(pre, k).push(l));
            assert(values_for_key(lns, k) =~= values_for_key(pre, k).push(line_value(l)));
            lemma_upsert_same(dpre, k, line_value(l));
            if !doc_has_key(dpre, k) {
                assert(values_for_key(pre, k).len() == 0);
                assert(values_for_key(lns, k) =~= seq![line_value(l)]);
            }
        } else {
            assert(lines_for_key(lns, k) == lines_for_key(pre, k));
            if line_ok(l) {
                lemma_upsert_other(dpre, line_key(l), line_value(l), k);
            }
        }
    }
}

proof fn lemma_no_missing(d: Doc, i: int)
    requires
        forall|j: int|
            i <= j < required_keys().len() ==> doc_has_key(d, #[trigger] required_keys()[j]),
    ensures
        first_missing_from(d, i) == None::<Seq<char>>,
    decreases required_keys().len() - i,
{
    if 0 <= i < required_keys().len() {
        lemma_no_missing(d, i + 1);
    }
}

proof fn lemma_missing_found(d: Doc, i: int)
    requires
        0 <= i,
        exists|j: int|
            i <= j < required_keys().len() && !doc_has_key(d, #[trigger] required_keys()[j]),
    ensures
        first_missing_from(d, i) is Some,
        required_key(first_missing_from(d, i)->0),
        !doc_has_key(d, first_missing_from(d, i)->0),
    decreases required_keys().len() - i,
{
    let j = choose|j: int|
        i <= j < required_keys().len() && !doc_has_key(d, #[trigger] required_keys()[j]);
    if !doc_has_key(d, required_keys()[i]) {
        assert(required_keys().contains(required_keys()[i]));
    } else {
        assert(i + 1 <= j);
        lemma_missing_found(d, i + 1);
    }
}

proof fn lemma_no_dup(d: Doc, i: int)
    requires
        forall|j: int|
            i <= j < string_keys().len() ==> !(doc_has_key(d, #[trigger] string_keys()[j])
                && doc_values(d, string_keys()[j]).len() > 1),
    ensures
        first_dup_from(d, i) == None::<Seq<char>>,
    decreases string_keys().len() - i,
{
    if 0 <= i < string_keys().len() {
        lemma_no_dup(d, i + 1);
    }
}

/// A document whose content lines all carry the delimiter, where every
/// required key receives at least one value and every single-valued key at
/// most one, parses successfully.
pub proof fn lemma_complete_document_parses(text: Seq<char>)
    requires
        forall|i: int|
            0 <= i < split_char(text, '\n').len() ==> !line_fail(
                #[trigger] split_char(text, '\n')[i],
            ),
        forall|j: int|
            0 <= j < required_keys().len() ==> values_for_key(
                split_char(text, '\n'),
                #[trigger] required_keys()[j],
            ).len() >= 1,
        forall|j: int|
            0 <= j < string_keys().len() ==> values_for_key(
                split_char(text, '\n'),
                #[trigger] string_keys()[j],
            ).len() <= 1,
    ensures
        parse_spec(text) is Good,
{
    let lns = split_char(text, '\n');
    lemma_no_fail(lns);
    let d = accum(lns);
    assert forall|j: int|
        0 <= j < required_keys().len() implies doc_has_key(d, #[trigger] required_keys()[j]) by {
        lemma_accum_values(lns, required_keys()[j]);
    }
    lemma_no_missing(d, 0);
    assert forall|j: int|
        0 <= j < string_keys().len() implies !(doc_has_key(d, #[trigger] string_keys()[j])
        && doc_values(d, string_keys()[j]).len() > 1) by {
        lemma_accum_values(lns, string_keys()[j]);
    }
    lemma_no_dup(d, 0);
}

/// A document whose content lines all carry the delimiter but that lacks
/// some required key fails at document level, naming a missing required
/// key.
pub proof fn lemma_missing_required_fails(text: Seq<char>)
    requires
        forall|i: int|
            0 <= i < split_char(text, '\n').len() ==> !line_fail(
                #[trigger] split_char(text, '\n')[i],
            ),
        exists|j: int|
            0 <= j < required_keys().len() && values_for_key(
                split_char(text, '\n'),
                #[trigger] required_keys()[j],
            ).len() == 0,
    ensures
        parse_spec(text) is MissingKey,
        required_key(parse_spec(text)->MissingKey_0),
        values_for_key(split_char(text, '\n'), parse_spec(text)->MissingKey_0).len() == 0,
{
    let lns = split_char(text, '\n');
    lemma_no_fail(lns);
    let d = accum(lns);
    let j = choose|j: int|
        0 <= j < required_keys().len() && values_for_key(
            lns,
            #[trigger] required_keys()[j],
        ).len() == 0;
    lemma_accum_values(lns, required_keys()[j]);
    assert(!doc_has_key(d, required_keys()[j]));
    lemma_missing_found(d, 0);
    lemma_accum_values(lns, first_missing_from(d, 0)->0);
}

/// Round-trip through a successful parse: whatever `get_array` yields for a
/// key is exactly the text after the first delimiter of each line
/// contributing to that key, tabs removed, in line order; whatever
/// `get_string` yields is the first such text.
pub proof fn lemma_round_trip(text: Seq<char>, k: Seq<char>)
    requires
        parse_spec(text) is Good,
    ensures
        ({
            let d = parse_spec(text)->Good_0;
            let vs = values_for_key(split_char(text, '\n'), k);
            &&& get_array_spec(d, k) is Some ==> get_array_spec(d, k)->0 == vs
            &&& get_string_spec(d, k) is Some ==> get_string_spec(d, k)->0 == vs[0]
        }),
{
    lemma_accum_values(split_char(text, '\n'), k);
}

/// The names yielded for an extendable key are exactly the stored names
/// that equal the key or carry it in one of its three extension shapes.
pub proof fn lemma_extended_values_set(d: Doc, k: Seq<char>, nm: Seq<char>)
    ensures
        matching_keys(d, k).contains(nm) <==> doc_keys(d).contains(nm) && ext_match(nm, k),
{
    if matching_keys(d, k).contains(nm) {
        crate::text::lemma_filter_subset(doc_keys(d), ext_pred(k), nm);
        let i = choose|i: int|
            0 <= i < matching_keys(d, k).len() && matching_keys(d, k)[i] == nm;
        doc_keys(d).lemma_filter_pred(ext_pred(k), i);
    }
    if doc_keys(d).contains(nm) && ext_match(nm, k) {
        let i = choose|i: int| 0 <= i < doc_keys(d).len() && doc_keys(d)[i] == nm;
        doc_keys(d).lemma_filter_contains(ext_pred(k), i);
    }
}

} // verus!

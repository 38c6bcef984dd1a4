//! The structured documents that jobs consume and produce.
//!
//! A document is a JSON-like value. The engine never interprets a payload
//! beyond two reserved keys of a job's returned document: `result` (an
//! object, carried forward to the successor) and `status` (a non-negative
//! integer selecting the successor edge). Objects are association lists of
//! key and value; numbers are integers (a non-integer number read from the
//! wire becomes null).

use vstd::prelude::*;
use vstd::string::StringExecFns;

verus! {

/// A JSON-like structured document.
#[derive(Debug)]
pub enum Document {
    Null,
    Bool(bool),
    Int(i64),
    Str(String),
    Arr(Vec<Document>),
    Obj(Vec<(String, Document)>),
}

/// The mathematical value of a [`Document`].
pub enum DocModel {
    Null,
    Bool(bool),
    Int(int),
    Str(Seq<char>),
    Arr(Seq<DocModel>),
    Obj(Seq<(Seq<char>, DocModel)>),
}

/// The value of a sequence of documents.
pub open spec fn docs_view(items: Seq<Document>) -> Seq<DocModel>
    decreases items,
{
    if items.len() == 0 {
        Seq::empty()
    } else {
        seq![items[0].view()] + docs_view(items.subrange(1, items.len() as int))
    }
}

/// The value of a sequence of object entries.
pub open spec fn entries_view(entries: Seq<(String, Document)>) -> Seq<(Seq<char>, DocModel)>
    decreases entries,
{
    if entries.len() == 0 {
        Seq::empty()
    } else {
        seq![(entries[0].0@, entries[0].1.view())] + entries_view(
            entries.subrange(1, entries.len() as int),
        )
    }
}

/// The index of the first entry with the given key, or -1.
pub open spec fn find_key(es: Seq<(Seq<char>, DocModel)>, k: Seq<char>) -> int
    decreases es.len(),
{
    if es.len() == 0 {
        -1
    } else if es[0].0 == k {
        0
    } else {
        let r = find_key(es.drop_first(), k);
        if r == -1 {
            -1
        } else {
            r + 1
        }
    }
}

/// What [`find_key`] finds: -1 means no entry has the key; otherwise it is
/// the first entry with it.
pub proof fn lemma_find_key(es: Seq<(Seq<char>, DocModel)>, k: Seq<char>)
    ensures
        find_key(es, k) == -1 ==> forall|i: int| 0 <= i < es.len() ==> (#[trigger] es[i]).0 != k,
        find_key(es, k) != -1 ==> {
            &&& 0 <= find_key(es, k) < es.len()
            &&& es[find_key(es, k)].0 == k
            &&& forall|i: int| 0 <= i < find_key(es, k) ==> (#[trigger] es[i]).0 != k
        },
    decreases es.len(),
{
    if es.len() > 0 && es[0].0 != k {
        lemma_find_key(es.drop_first(), k);
        let r = find_key(es.drop_first(), k);
        if r != -1 {
            assert forall|i: int| 0 <= i < r + 1 implies (#[trigger] es[i]).0 != k by {
                if i > 0 {
                    assert(es[i] == es.drop_first()[i - 1]);
                }
            }
        } else {
            assert forall|i: int| 0 <= i < es.len() implies (#[trigger] es[i]).0 != k by {
                if i > 0 {
                    assert(es[i] == es.drop_first()[i - 1]);
                }
            }
        }
    }
}

/// The entries of an object; anything else has none.
pub open spec fn obj_entries(d: DocModel) -> Seq<(Seq<char>, DocModel)> {
    match d {
        DocModel::Obj(es) => es,
        _ => Seq::empty(),
    }
}

/// The value at a key of an object, if any.
pub open spec fn lookup_obj(d: DocModel, k: Seq<char>) -> Option<DocModel> {
    match d {
        DocModel::Obj(es) => if find_key(es, k) != -1 {
            Some(es[find_key(es, k)].1)
        } else {
            None
        },
        _ => None,
    }
}

/// Entry insertion: the value of an existing key is replaced in place, a
/// new key is appended.
pub open spec fn insert_entry(
    es: Seq<(Seq<char>, DocModel)>,
    k: Seq<char>,
    v: DocModel,
) -> Seq<(Seq<char>, DocModel)> {
    if find_key(es, k) == -1 {
        es.push((k, v))
    } else {
        es.update(find_key(es, k), (k, v))
    }
}

/// Entries inserted one by one, left to right.
pub open spec fn merge_entries(
    acc: Seq<(Seq<char>, DocModel)>,
    rest: Seq<(Seq<char>, DocModel)>,
) -> Seq<(Seq<char>, DocModel)>
    decreases rest.len(),
{
    if rest.len() == 0 {
        acc
    } else {
        merge_entries(insert_entry(acc, rest[0].0, rest[0].1), rest.drop_first())
    }
}

/// The merge of two documents: an object holding the entries of both, a
/// later entry replacing an earlier one with the same key. A document that
/// is not an object contributes nothing.
pub open spec fn spec_merge(a: DocModel, b: DocModel) -> DocModel {
    DocModel::Obj(merge_entries(merge_entries(Seq::empty(), obj_entries(a)), obj_entries(b)))
}

impl View for Document {
    type V = DocModel;

    open spec fn view(&self) -> DocModel
        decreases self,
    {
        match self {
            Document::Null => DocModel::Null,
            Document::Bool(b) => DocModel::Bool(*b),
            Document::Int(i) => DocModel::Int(*i as int),
            Document::Str(s) => DocModel::Str(s@),
            Document::Arr(items) => DocModel::Arr(docs_view(items@)),
            Document::Obj(entries) => DocModel::Obj(entries_view(entries@)),
        }
    }
}

/// Element-wise reading of [`docs_view`].
pub proof fn lemma_docs_view(items: Seq<Document>)
    ensures
        docs_view(items).len() == items.len(),
        forall|i: int| 0 <= i < items.len() ==> docs_view(items)[i] == items[i]@,
    decreases items,
{
    if items.len() > 0 {
        let tail = items.subrange(1, items.len() as int);
        lemma_docs_view(tail);
        assert(docs_view(items) == seq![items[0]@] + docs_view(tail));
        assert forall|i: int| 0 <= i < items.len() implies docs_view(items)[i] == items[i]@ by {
            if i > 0 {
                assert(docs_view(items)[i] == docs_view(tail)[i - 1]);
                assert(tail[i - 1] == items[i]);
            }
        }
    }
}

impl Document {
    /// An empty object.
    pub fn empty_object() -> (r: Document)
        ensures
            r@ == DocModel::Obj(Seq::<(Seq<char>, DocModel)>::empty()),
    {
        let d = Document::Obj(Vec::new());
        proof {
            assert(entries_view(Seq::<(String, Document)>::empty()) =~= Seq::<
                (Seq<char>, DocModel),
            >::empty());
        }
        d
    }

    /// The value at a key of this document, if it is an object with one.
    pub fn get_field<'a>(&'a self, key: &str) -> (r: Option<&'a Document>)
        ensures
            match r {
                Some(v) => lookup_obj(self@, key@) == Some(v@),
                None => lookup_obj(self@, key@) is None,
            },
    {
        let key_string = String::from_str(key);
        match self {
            Document::Obj(entries) => {
                proof {
                    lemma_entries_view(entries@);
                }
                let ghost es = entries_view(entries@);
                let mut i: usize = 0;
                while i < entries.len()
                    invariant
                        0 <= i <= entries@.len(),
                        es == entries_view(entries@),
                        es.len() == entries@.len(),
                        forall|j: int| 0 <= j < entries@.len() ==> #[trigger] es[j] == (
                            entries@[j].0@,
                            entries@[j].1@,
                        ),
                        forall|j: int| 0 <= j < i ==> (#[trigger] es[j]).0 != key@,
                        key_string@ == key@,
                        self@ == DocModel::Obj(es),
                    decreases entries@.len() - i,
                {
                    if entries[i].0 == key_string {
                        proof {
                            assert(es[i as int] == (entries@[i as int].0@, entries@[i as int].1@));
                            assert(es[i as int].0 == key@);
                            lemma_find_key(es, key@);
                            assert(find_key(es, key@) == i);
                        }
                        return Some(&entries[i].1);
                    }
                    i = i + 1;
                }
                proof {
                    lemma_find_key(es, key@);
                }
                None
            },
            _ => None,
        }
    }

    /// Takes the value at a key out of this document, consuming it.
    pub fn take_field(self, key: &str) -> (r: Option<Document>)
        ensures
            match r {
                Some(v) => lookup_obj(self@, key@) == Some(v@),
                None => lookup_obj(self@, key@) is None,
            },
    {
        let key_string = String::from_str(key);
        match self {
            Document::Obj(mut entries) => {
                proof {
                    lemma_entries_view(entries@);
                }
                let ghost es = entries_view(entries@);
                let mut i: usize = 0;
                while i < entries.len()
                    invariant
                        0 <= i <= entries@.len(),
                        es == entries_view(entries@),
                        es.len() == entries@.len(),
                        forall|j: int| 0 <= j < entries@.len() ==> #[trigger] es[j] == (
                            entries@[j].0@,
                            entries@[j].1@,
                        ),
                        forall|j: int| 0 <= j < i ==> (#[trigger] es[j]).0 != key@,
                        key_string@ == key@,
                        self@ == DocModel::Obj(es),
                    decreases entries@.len() - i,
                {
                    if entries[i].0 == key_string {
                        proof {
                            assert(es[i as int] == (entries@[i as int].0@, entries@[i as int].1@));
                            assert(es[i as int].0 == key@);
                            lemma_find_key(es, key@);
                            assert(find_key(es, key@) == i);
                        }
                        let pair = entries.remove(i);
                        return Some(pair.1);
                    }
                    i = i + 1;
                }
                proof {
                    lemma_find_key(es, key@);
                }
                None
            },
            _ => None,
        }
    }

    /// Structural equality of two documents.
    pub fn doc_eq(&self, other: &Document) -> (r: bool)
        ensures
            r == (self@ == other@),
        decreases self,
    {
        match (self, other) {
            (Document::Null, Document::Null) => true,
            (Document::Bool(x), Document::Bool(y)) => {
                let r = *x == *y;
                proof {
                    assert(r == (self@ == other@));
                }
                r
            },
            (Document::Int(x), Document::Int(y)) => {
                let r = *x == *y;
                proof {
                    assert(r == (self@ == other@));
                }
                r
            },
            (Document::Str(x), Document::Str(y)) => {
                let r = *x == *y;
                proof {
                    assert(r == (self@ == other@));
                }
                r
            },
            (Document::Arr(x), Document::Arr(y)) => {
                proof {
                    lemma_docs_view(x@);
                    lemma_docs_view(y@);
                }
                if x.len() != y.len() {
                    return false;
                }
                let mut i: usize = 0;
                while i < x.len()
                    invariant
                        0 <= i <= x@.len(),
                        x@.len() == y@.len(),
                        self == Document::Arr(*x),
                        other == Document::Arr(*y),
                        docs_view(x@).len() == x@.len(),
                        docs_view(y@).len() == y@.len(),
                        forall|j: int| 0 <= j < x@.len() ==> #[trigger] docs_view(x@)[j]
                            == x@[j]@,
                        forall|j: int| 0 <= j < y@.len() ==> #[trigger] docs_view(y@)[j]
                            == y@[j]@,
                        forall|j: int| 0 <= j < i ==> #[trigger] docs_view(x@)[j] == docs_view(
                            y@,
                        )[j],
                    decreases x@.len() - i,
                {
                    proof {
                        assert(decreases_to!(self => self->Arr_0));
                        assert(decreases_to!(self->Arr_0 => x@));
                        assert(decreases_to!(x@ => x@[i as int]));
                        assert(decreases_to!(self => x@[i as int]));
                    }
                    if !x[i].doc_eq(&y[i]) {
                        proof {
                            assert(docs_view(x@)[i as int] == x@[i as int]@);
                            assert(docs_view(y@)[i as int] == y@[i as int]@);
                            if docs_view(x@) == docs_view(y@) {
                                assert(docs_view(x@)[i as int] == docs_view(y@)[i as int]);
                            }
                            assert(self@ == DocModel::Arr(docs_view(x@)));
                            assert(other@ == DocModel::Arr(docs_view(y@)));
                        }
                        return false;
                    }
                    i = i + 1;
                }
                proof {
                    assert(docs_view(x@) =~= docs_view(y@));
                    assert(self@ == other@);
                }
                true
            },
            (Document::Obj(x), Document::Obj(y)) => {
                proof {
                    lemma_entries_view(x@);
                    lemma_entries_view(y@);
                }
                if x.len() != y.len() {
                    return false;
                }
                let mut i: usize = 0;
                while i < x.len()
                    invariant
                        0 <= i <= x@.len(),
                        x@.len() == y@.len(),
                        self == Document::Obj(*x),
                        other == Document::Obj(*y),
                        entries_view(x@).len() == x@.len(),
                        entries_view(y@).len() == y@.len(),
                        forall|j: int| 0 <= j < x@.len() ==> #[trigger] entries_view(x@)[j] == (
                            x@[j].0@,
                            x@[j].1@,
                        ),
                        forall|j: int| 0 <= j < y@.len() ==> #[trigger] entries_view(y@)[j] == (
                            y@[j].0@,
                            y@[j].1@,
                        ),
                        forall|j: int| 0 <= j < i ==> #[trigger] entries_view(x@)[j]
                            == entries_view(y@)[j],
                    decreases x@.len() - i,
                {
                    proof {
                        assert(decreases_to!(self => self->Obj_0));
                        assert(decreases_to!(self->Obj_0 => x@));
                        assert(decreases_to!(self => x@));
                        assert(decreases_to!(x@ => x@[i as int]));
                        assert(decreases_to!(self => x@[i as int]));
                        assert(decreases_to!(x@[i as int] => x@[i as int].1));
                        assert(decreases_to!(self => x@[i as int].1));
                    }
                    if !(x[i].0 == y[i].0) {
                        proof {
                            assert(entries_view(x@)[i as int] == (x@[i as int].0@, x@[i as int].1@));
                            assert(entries_view(y@)[i as int] == (y@[i as int].0@, y@[i as int].1@));
                            if entries_view(x@) == entries_view(y@) {
                                assert(entries_view(x@)[i as int] == entries_view(y@)[i as int]);
                            }
                            assert(self@ == DocModel::Obj(entries_view(x@)));
                            assert(other@ == DocModel::Obj(entries_view(y@)));
                        }
                        return false;
                    }
                    if !x[i].1.doc_eq(&y[i].1) {
                        proof {
                            assert(entries_view(x@)[i as int] == (x@[i as int].0@, x@[i as int].1@));
                            assert(entries_view(y@)[i as int] == (y@[i as int].0@, y@[i as int].1@));
                            if entries_view(x@) == entries_view(y@) {
                                assert(entries_view(x@)[i as int] == entries_view(y@)[i as int]);
                            }
                            assert(self@ == DocModel::Obj(entries_view(x@)));
                            assert(other@ == DocModel::Obj(entries_view(y@)));
                        }
                        return false;
                    }
                    i = i + 1;
                }
                proof {
                    assert(entries_view(x@) =~= entries_view(y@));
                    assert(self@ == other@);
                }
                true
            },
            _ => {
                proof {
                    if self@ == other@ {
                        match self {
                            Document::Null => assert(*other is Null),
                            Document::Bool(_) => assert(*other is Bool),
                            Document::Int(_) => assert(*other is Int),
                            Document::Str(_) => assert(*other is Str),
                            Document::Arr(_) => assert(*other is Arr),
                            Document::Obj(_) => assert(*other is Obj),
                        }
                    }
                }
                false
            },
        }
    }
}

/// Inserts one entry: the value of an existing key is replaced in place, a
/// new key is appended.
fn insert_pair(out: &mut Vec<(String, Document)>, k: String, v: Document)
    ensures
        entries_view(final(out)@) == insert_entry(entries_view(old(out)@), k@, v@),
{
    proof {
        lemma_entries_view(old(out)@);
    }
    let ghost es = entries_view(old(out)@);
    let mut i: usize = 0;
    while i < out.len()
        invariant
            0 <= i <= out@.len(),
            out@ == old(out)@,
            es == entries_view(out@),
            es.len() == out@.len(),
            forall|j: int| 0 <= j < out@.len() ==> #[trigger] es[j] == (out@[j].0@, out@[j].1@),
            forall|j: int| 0 <= j < i ==> (#[trigger] es[j]).0 != k@,
        decreases out@.len() - i,
    {
        if out[i].0 == k {
            proof {
                assert(es[i as int] == (out@[i as int].0@, out@[i as int].1@));
                assert(es[i as int].0 == k@);
                lemma_find_key(es, k@);
                assert(find_key(es, k@) == i);
            }
            out.set(i, (k, v));
            proof {
                lemma_entries_view(out@);
                assert(entries_view(out@) =~= es.update(i as int, (k@, v@)));
            }
            return ;
        }
        i = i + 1;
    }
    proof {
        lemma_find_key(es, k@);
    }
    out.push((k, v));
    proof {
        lemma_entries_view(out@);
        assert(entries_view(out@) =~= es.push((k@, v@)));
    }
}

/// Inserts every entry of `from`, in order, into `out`.
fn insert_all(out: &mut Vec<(String, Document)>, from: Vec<(String, Document)>)
    ensures
        entries_view(final(out)@) == merge_entries(entries_view(old(out)@), entries_view(from@)),
{
    let mut rest = from;
    let ghost target = merge_entries(entries_view(old(out)@), entries_view(rest@));
    while rest.len() > 0
        invariant
            merge_entries(entries_view(out@), entries_view(rest@)) == target,
        decreases rest@.len(),
    {
        let ghost prev_rest = rest@;
        let ghost prev_out = entries_view(out@);
        let pair = rest.remove(0);
        proof {
            lemma_entries_view(prev_rest);
            lemma_entries_view(rest@);
            assert(entries_view(prev_rest).drop_first() =~= entries_view(rest@));
            assert(entries_view(prev_rest)[0] == (pair.0@, pair.1@));
            assert(merge_entries(prev_out, entries_view(prev_rest)) == merge_entries(
                insert_entry(prev_out, pair.0@, pair.1@),
                entries_view(rest@),
            ));
        }
        insert_pair(out, pair.0, pair.1);
    }
    proof {
        assert(entries_view(rest@) =~= Seq::<(Seq<char>, DocModel)>::empty());
    }
}

/// The merge of two documents: an object holding the entries of both, the
/// later document replacing values of shared keys. A document that is not
/// an object contributes nothing.
pub fn merge_json(a: Document, b: Document) -> (r: Document)
    ensures
        r@ == spec_merge(a@, b@),
{
    let ghost a_model = a@;
    let ghost b_model = b@;
    let mut out: Vec<(String, Document)> = Vec::new();
    proof {
        assert(entries_view(out@) =~= Seq::<(Seq<char>, DocModel)>::empty());
    }
    let a_entries: Vec<(String, Document)> = match a {
        Document::Obj(es) => es,
        _ => Vec::new(),
    };
    proof {
        assert(entries_view(a_entries@) =~= obj_entries(a_model));
    }
    let b_entries: Vec<(String, Document)> = match b {
        Document::Obj(es) => es,
        _ => Vec::new(),
    };
    proof {
        assert(entries_view(b_entries@) =~= obj_entries(b_model));
    }
    insert_all(&mut out, a_entries);
    insert_all(&mut out, b_entries);
    Document::Obj(out)
}

#[verifier::external_type_specification]
#[verifier::external_body]
pub struct ExValue(serde_json::Value);

/// What parsing this text as JSON yields, as a document: the parsed value,
/// or null where the text is not valid JSON. (A non-integer number inside
/// becomes null.)
pub uninterp spec fn parsed_doc(s: Seq<char>) -> DocModel;

/// Converts a serde_json value into a document, arm by arm. A number that
/// is not an integer becomes null.
#[verifier::external_body]
fn doc_from_value(v: serde_json::Value) -> Document {
    match v {
        serde_json::Value::Null => Document::Null,
        serde_json::Value::Bool(b) => Document::Bool(b),
        serde_json::Value::Number(n) => match n.as_i64() {
            Some(i) => Document::Int(i),
            None => Document::Null,
        },
        serde_json::Value::String(s) => Document::Str(s),
        serde_json::Value::Array(items) => Document::Arr(
            items.into_iter().map(doc_from_value).collect(),
        ),
        serde_json::Value::Object(map) => Document::Obj(
            map.into_iter().map(|(k, v)| (k, doc_from_value(v))).collect(),
        ),
    }
}

/// Relies on serde_json::from_str: what JSON text parses to depends on the
/// text alone.
#[verifier::external_body]
pub fn parse_json_text(s: &str) -> (r: Document)
    ensures
        r@ == parsed_doc(s@),
{
    match serde_json::from_str::<serde_json::Value>(s) {
        Ok(v) => doc_from_value(v),
        Err(_) => Document::Null,
    }
}

/// Element-wise reading of [`entries_view`].
pub proof fn lemma_entries_view(entries: Seq<(String, Document)>)
    ensures
        entries_view(entries).len() == entries.len(),
        forall|i: int| 0 <= i < entries.len() ==> entries_view(entries)[i] == (
            entries[i].0@,
            entries[i].1@,
        ),
    decreases entries,
{
    if entries.len() > 0 {
        let tail = entries.subrange(1, entries.len() as int);
        lemma_entries_view(tail);
        assert(entries_view(entries) == seq![(entries[0].0@, entries[0].1@)] + entries_view(tail));
        assert forall|i: int|
            0 <= i < entries.len() implies entries_view(entries)[i] == (
            entries[i].0@,
            entries[i].1@,
        ) by {
            if i > 0 {
                assert(entries_view(entries)[i] == entries_view(tail)[i - 1]);
                assert(tail[i - 1] == entries[i]);
            }
        }
    }
}

} // verus!

//! The text segment: key-value pairs separated by a delimiter that the segment
//! itself declares in its first character. A doubled delimiter stands for one
//! literal delimiter inside a key or value.
use vstd::prelude::*;

use crate::chars::chars_of;

verus! {

/// The text segment does not follow the delimited key-value grammar.
#[derive(Debug, Clone, Copy, PartialEq, Eq, Structural)]
pub struct TextError;

/// What `str::to_uppercase` gives for a string.
pub uninterp spec fn upper_of(s: Seq<char>) -> Seq<char>;

/// Relies on `str::to_uppercase`: the result depends on the characters alone.
#[verifier::external_body]
fn uppercase(s: &str) -> (r: String)
    ensures
        r@ == upper_of(s@),
{
    s.to_uppercase()
}

/// Splits `s` into fields, `cur` being the field read so far. Scanning left to right:
/// two delimiters are one literal delimiter, a single delimiter ends the field, any
/// other character is literal. A field that ends with the input is kept only when it
/// is not empty.
pub open spec fn scan(s: Seq<char>, d: char, cur: Seq<char>) -> Seq<Seq<char>>
    decreases s.len(),
{
    if s.len() == 0 {
        if cur.len() == 0 {
            seq![]
        } else {
            seq![cur]
        }
    } else if s.len() >= 2 && s[0] == d && s[1] == d {
        scan(s.skip(2), d, cur.push(d))
    } else if s[0] == d {
        seq![cur] + scan(s.drop_first(), d, seq![])
    } else {
        scan(s.drop_first(), d, cur.push(s[0]))
    }
}

/// The fields of a non-empty text segment, after its leading delimiter.
pub open spec fn text_fields(s: Seq<char>) -> Seq<Seq<char>> {
    scan(s.drop_first(), s[0], seq![])
}

/// At least one key and one value, as many keys as values, and no field empty.
pub open spec fn fields_ok(ff: Seq<Seq<char>>) -> bool {
    &&& ff.len() >= 2
    &&& ff.len() % 2 == 0
    &&& forall|i: int| 0 <= i < ff.len() ==> (#[trigger] ff[i]).len() > 0
}

/// The pairs that fields make: even fields are keys, in upper case, odd ones values.
pub open spec fn pairs_of(ff: Seq<Seq<char>>) -> Seq<(Seq<char>, Seq<char>)> {
    Seq::new(ff.len() / 2, |j: int| (upper_of(ff[2 * j]), ff[2 * j + 1]))
}

/// The mapping that a sequence of pairs gives when a later key overwrites an earlier one.
pub open spec fn to_map(e: Seq<(Seq<char>, Seq<char>)>) -> Map<Seq<char>, Seq<char>>
    decreases e.len(),
{
    if e.len() == 0 {
        Map::empty()
    } else {
        to_map(e.drop_last()).insert(e.last().0, e.last().1)
    }
}

/// Decoding a text segment: its delimiter and its mapping, or `None` where it does
/// not follow the grammar.
pub open spec fn decode_text(s: Seq<char>) -> Option<(char, Map<Seq<char>, Seq<char>>)> {
    if s.len() == 0 {
        None
    } else if !fields_ok(text_fields(s)) {
        None
    } else {
        Some((s[0], to_map(pairs_of(text_fields(s)))))
    }
}

/// One character as it is written: the delimiter doubled, any other character as is.
pub open spec fn escape_char(c: char, d: char) -> Seq<char> {
    if c == d {
        seq![d, d]
    } else {
        seq![c]
    }
}

/// A field as it is written, each delimiter in it doubled.
pub open spec fn escape(f: Seq<char>, d: char) -> Seq<char>
    decreases f.len(),
{
    if f.len() == 0 {
        seq![]
    } else {
        escape_char(f[0], d) + escape(f.drop_first(), d)
    }
}

/// Fields as they are written, one delimiter between each two.
pub open spec fn join(ff: Seq<Seq<char>>, d: char) -> Seq<char>
    decreases ff.len(),
{
    if ff.len() == 0 {
        seq![]
    } else if ff.len() == 1 {
        escape(ff[0], d)
    } else {
        escape(ff[0], d) + seq![d] + join(ff.drop_first(), d)
    }
}

/// The fields of pairs: key, value, key, value, ...
pub open spec fn fields_of(e: Seq<(Seq<char>, Seq<char>)>) -> Seq<Seq<char>> {
    Seq::new(2 * e.len(), |i: int| if i % 2 == 0 { e[i / 2].0 } else { e[i / 2].1 })
}

/// Encoding a text segment: the delimiter, then the keys and values, escaped and
/// separated by the delimiter.
pub open spec fn encode_text(d: char, e: Seq<(Seq<char>, Seq<char>)>) -> Seq<char> {
    seq![d] + join(fields_of(e), d)
}

pub open spec fn keys_unique(e: Seq<(Seq<char>, Seq<char>)>) -> bool {
    forall|i: int, j: int| 0 <= i < e.len() && 0 <= j < e.len() && i != j ==> e[i].0 != e[j].0
}

pub open spec fn string_views(v: Seq<String>) -> Seq<Seq<char>> {
    Seq::new(v.len(), |i: int| v[i]@)
}

/// The metadata of a text segment.
#[derive(Debug)]
pub struct Text {
    /// The delimiter that separates keys and values.
    pub delimiter: char,
    /// The key-value pairs, each key once, in the order of first appearance.
    pub pairs: Vec<(String, String)>,
}

impl Text {
    /// The pairs as sequences of characters.
    pub open spec fn entries(&self) -> Seq<(Seq<char>, Seq<char>)> {
        Seq::new(self.pairs.len() as nat, |i: int| (self.pairs[i].0@, self.pairs[i].1@))
    }

    pub open spec fn wf(&self) -> bool {
        keys_unique(self.entries())
    }

    /// The mapping from key to value.
    pub open spec fn map(&self) -> Map<Seq<char>, Seq<char>> {
        to_map(self.entries())
    }

    /// A text without pairs.
    pub fn new(delimiter: char) -> (r: Text)
        ensures
            r.delimiter == delimiter,
            r.wf(),
            r.entries().len() == 0,
            r.map() == Map::<Seq<char>, Seq<char>>::empty(),
    {
        let r = Text { delimiter, pairs: Vec::new() };
        assert(r.entries() =~= Seq::empty());
        r
    }

    /// Where `key` stands among the pairs, if it does.
    fn position(&self, key: &String) -> (r: Option<usize>)
        requires
            self.wf(),
        ensures
            match r {
                Some(i) => i < self.pairs.len() && self.entries()[i as int].0 == key@,
                None => forall|i: int| 0 <= i < self.pairs.len() ==> self.entries()[i].0 != key@,
            },
    {
        let mut i: usize = 0;
        while i < self.pairs.len()
            invariant
                i <= self.pairs.len(),
                forall|j: int| 0 <= j < i ==> self.entries()[j].0 != key@,
            decreases self.pairs.len() - i,
        {
            if self.pairs[i].0 == *key {
                return Some(i);
            }
            i = i + 1;
        }
        None
    }

    /// Sets the value of `key`, replacing the value it had.
    pub fn insert(&mut self, key: String, value: String)
        requires
            old(self).wf(),
        ensures
            final(self).wf(),
            final(self).delimiter == old(self).delimiter,
            final(self).map() == old(self).map().insert(key@, value@),
    {
        let ghost e = self.entries();
        match self.position(&key) {
            Some(i) => {
                self.pairs[i] = (key, value);
                proof {
                    assert(self.entries() =~= e.update(i as int, (key@, value@)));
                    lemma_to_map_update(e, i as int, value@);
                }
            },
            None => {
                self.pairs.push((key, value));
                proof {
                    assert(self.entries() =~= e.push((key@, value@)));
                    assert(self.entries().drop_last() =~= e);
                }
            },
        }
    }

    /// The value of `key`, if it has one.
    pub fn get(&self, key: &str) -> (r: Option<&String>)
        requires
            self.wf(),
        ensures
            match r {
                Some(v) => self.map().contains_key(key@) && self.map()[key@] == v@,
                None => !self.map().contains_key(key@),
            },
    {
        let k = key.to_owned();
        match self.position(&k) {
            Some(i) => {
                proof {
                    lemma_to_map_index(self.entries(), i as int);
                }
                Some(&self.pairs[i].1)
            },
            None => {
                proof {
                    lemma_to_map_absent(self.entries(), key@);
                }
                None
            },
        }
    }

    /// Decodes a text segment.
    pub fn try_from(text: &str) -> (r: Result<Text, TextError>)
        ensures
            match decode_text(text@) {
                Some((d, m)) => r is Ok && r->Ok_0.wf() && r->Ok_0.delimiter == d && r->Ok_0.map()
                    == m,
                None => r is Err,
            },
    {
        let cs = chars_of(text);
        if cs.len() == 0 {
            return Err(TextError);
        }
        let fields = scan_fields(&cs, 1, cs[0]);
        assert(cs@.skip(1) =~= cs@.drop_first());
        let ghost ff = text_fields(text@);
        if fields.len() < 2 || fields.len() % 2 != 0 {
            return Err(TextError);
        }
        let mut k: usize = 0;
        while k < fields.len()
            invariant
                k <= fields.len(),
                string_views(fields@) == ff,
                ff == text_fields(text@),
                cs@ == text@,
                cs.len() > 0,
                forall|i: int| 0 <= i < k ==> (#[trigger] ff[i]).len() > 0,
            decreases fields.len() - k,
        {
            if fields[k].as_str().is_empty() {
                assert(ff[k as int] == fields[k as int]@);
                assert(ff[k as int].len() == 0);
                assert(!fields_ok(ff));
                return Err(TextError);
            }
            assert(ff[k as int] == fields[k as int]@);
            k = k + 1;
        }
        let mut t = Text::new(cs[0]);
        let n = fields.len() / 2;
        let mut j: usize = 0;
        while j < n
            invariant
                n == fields.len() / 2,
                j <= n,
                string_views(fields@) == ff,
                ff == text_fields(text@),
                cs@ == text@,
                cs.len() > 0,
                t.wf(),
                t.delimiter == text@[0],
                t.map() == to_map(pairs_of(ff).take(j as int)),
            decreases n - j,
        {
            let key = uppercase(fields[2 * j].as_str());
            let value = fields[2 * j + 1].clone();
            assert(ff[2 * j as int] == fields[2 * j as int]@);
            assert(ff[2 * j + 1] == fields[2 * j + 1]@);
            t.insert(key, value);
            assert(pairs_of(ff).take(j + 1).drop_last() =~= pairs_of(ff).take(j as int));
            j = j + 1;
        }
        assert(pairs_of(ff).take(n as int) =~= pairs_of(ff));
        Ok(t)
    }
}

impl Text {
    /// The text segment that holds these pairs.
    pub fn encode(&self) -> (r: String)
        ensures
            r@ == encode_text(self.delimiter, self.entries()),
    {
        let d = self.delimiter;
        let ghost ff = fields_of(self.entries());
        let mut r = String::new();
        r.push(d);
        let mut j: usize = 0;
        while j < self.pairs.len()
            invariant
                j <= self.pairs.len(),
                d == self.delimiter,
                ff == fields_of(self.entries()),
                r@ == seq![d] + join(ff.take(2 * j), d),
            decreases self.pairs.len() - j,
        {
            let ghost before = r@;
            if j > 0 {
                r.push(d);
            }
            push_escaped(&mut r, self.pairs[j].0.as_str(), d);
            proof {
                if j > 0 {
                    lemma_join_push(ff.take(2 * j), ff[2 * j], d);
                    assert(ff.take(2 * j).push(ff[2 * j]) =~= ff.take(2 * j + 1));
                    assert(r@ =~= seq![d] + join(ff.take(2 * j + 1), d));
                } else {
                    assert(ff.take(1) =~= seq![ff[0]]);
                    assert(r@ =~= seq![d] + join(ff.take(1), d));
                }
            }
            r.push(d);
            push_escaped(&mut r, self.pairs[j].1.as_str(), d);
            proof {
                lemma_join_push(ff.take(2 * j + 1), ff[2 * j + 1], d);
                assert(ff.take(2 * j + 1).push(ff[2 * j + 1]) =~= ff.take(2 * j + 2));
                assert(r@ =~= seq![d] + join(ff.take(2 * j + 2), d));
            }
            j = j + 1;
        }
        assert(ff.take(2 * j) =~= ff);
        r
    }
}

/// Appends `f` with each delimiter in it doubled.
fn push_escaped(r: &mut String, f: &str, d: char)
    ensures
        final(r)@ == old(r)@ + escape(f@, d),
{
    let cs = chars_of(f);
    let mut i: usize = 0;
    while i < cs.len()
        invariant
            i <= cs.len(),
            cs@ == f@,
            r@ == old(r)@ + escape(cs@.take(i as int), d),
        decreases cs.len() - i,
    {
        let c = cs[i];
        r.push(c);
        if c == d {
            r.push(d);
        }
        proof {
            lemma_escape_push(cs@.take(i as int), c, d);
            assert(cs@.take(i as int).push(c) =~= cs@.take(i + 1));
        }
        assert(r@ =~= old(r)@ + escape(cs@.take(i + 1), d));
        i = i + 1;
    }
    assert(cs@.take(i as int) =~= f@);
}

proof fn lemma_escape_push(f: Seq<char>, c: char, d: char)
    ensures
        escape(f.push(c), d) == escape(f, d) + escape_char(c, d),
    decreases f.len(),
{
    if f.len() == 0 {
        assert(f.push(c).drop_first() =~= Seq::<char>::empty());
        assert(escape(Seq::<char>::empty(), d) == Seq::<char>::empty());
        assert(escape(f.push(c), d) =~= escape_char(c, d));
        assert(escape(f, d) + escape_char(c, d) =~= escape_char(c, d));
    } else {
        assert(f.push(c).drop_first() =~= f.drop_first().push(c));
        lemma_escape_push(f.drop_first(), c, d);
        assert(escape(f.push(c), d) =~= escape(f, d) + escape_char(c, d));
    }
}

proof fn lemma_join_push(ff: Seq<Seq<char>>, f: Seq<char>, d: char)
    requires
        ff.len() > 0,
    ensures
        join(ff.push(f), d) == join(ff, d) + seq![d] + escape(f, d),
    decreases ff.len(),
{
    if ff.len() == 1 {
        assert(ff.push(f).drop_first() =~= seq![f]);
        assert(join(seq![f], d) == escape(f, d));
        assert(join(ff, d) == escape(ff[0], d));
    } else {
        assert(ff.push(f).drop_first() =~= ff.drop_first().push(f));
        lemma_join_push(ff.drop_first(), f, d);
        assert(join(ff.push(f), d) =~= join(ff, d) + seq![d] + escape(f, d));
    }
}

/// Splits `body` into fields at the single occurrences of `delimiter`, a doubled
/// delimiter standing for one literal delimiter.
pub fn split_fields(body: &str, delimiter: char) -> (r: Vec<String>)
    ensures
        string_views(r@) == scan(body@, delimiter, seq![]),
{
    let cs = chars_of(body);
    assert(cs@.skip(0) =~= body@);
    scan_fields(&cs, 0, delimiter)
}

/// The fields of `cs` from position `from` on.
fn scan_fields(cs: &Vec<char>, from: usize, d: char) -> (r: Vec<String>)
    requires
        from <= cs.len(),
    ensures
        string_views(r@) == scan(cs@.skip(from as int), d, seq![]),
{
    let n = cs.len();
    let mut fields: Vec<String> = Vec::new();
    let mut cur = String::new();
    let mut i: usize = from;
    assert(string_views(fields@) =~= seq![]);
    assert(seq![] + scan(cs@.skip(from as int), d, seq![]) =~= scan(cs@.skip(from as int), d, seq![]));
    while i < n
        invariant
            n == cs.len(),
            from <= i <= n,
            string_views(fields@) + scan(cs@.skip(i as int), d, cur@) == scan(
                cs@.skip(from as int),
                d,
                seq![],
            ),
        decreases n - i,
    {
        let ghost s = cs@.skip(i as int);
        if i + 1 < n && cs[i] == d && cs[i + 1] == d {
            assert(s.skip(2) =~= cs@.skip(i + 2));
            cur.push(d);
            i = i + 2;
        } else if cs[i] == d {
            assert(s.drop_first() =~= cs@.skip(i + 1));
            let ghost before = string_views(fields@);
            fields.push(cur);
            assert(string_views(fields@) =~= before.push(cur@));
            assert(before + (seq![cur@] + scan(cs@.skip(i + 1), d, seq![])) =~= before.push(cur@)
                + scan(cs@.skip(i + 1), d, seq![]));
            cur = String::new();
            i = i + 1;
        } else {
            assert(s.drop_first() =~= cs@.skip(i + 1));
            cur.push(cs[i]);
            i = i + 1;
        }
    }
    assert(cs@.skip(i as int).len() == 0);
    if cur.as_str().is_empty() {
        assert(string_views(fields@) + seq![] =~= string_views(fields@));
    } else {
        let ghost before = string_views(fields@);
        fields.push(cur);
        assert(string_views(fields@) =~= before + seq![cur@]);
    }
    fields
}

/// With each key once, the mapping gives each key the value that stands with it.
proof fn lemma_to_map_index(e: Seq<(Seq<char>, Seq<char>)>, i: int)
    requires
        keys_unique(e),
        0 <= i < e.len(),
    ensures
        to_map(e).contains_key(e[i].0),
        to_map(e)[e[i].0] == e[i].1,
    decreases e.len(),
{
    if i < e.len() - 1 {
        lemma_to_map_index(e.drop_last(), i);
    }
}

/// A key that no pair holds is not in the mapping.
proof fn lemma_to_map_absent(e: Seq<(Seq<char>, Seq<char>)>, k: Seq<char>)
    requires
        forall|i: int| 0 <= i < e.len() ==> e[i].0 != k,
    ensures
        !to_map(e).contains_key(k),
    decreases e.len(),
{
    if e.len() > 0 {
        lemma_to_map_absent(e.drop_last(), k);
    }
}

/// With each key once, replacing the value of pair `i` is an insert into the mapping.
proof fn lemma_to_map_update(e: Seq<(Seq<char>, Seq<char>)>, i: int, v: Seq<char>)
    requires
        keys_unique(e),
        0 <= i < e.len(),
    ensures
        to_map(e.update(i, (e[i].0, v))) == to_map(e).insert(e[i].0, v),
    decreases e.len(),
{
    let u = e.update(i, (e[i].0, v));
    if i == e.len() - 1 {
        assert(u.drop_last() =~= e.drop_last());
        lemma_to_map_absent(e.drop_last(), e[i].0);
        assert(to_map(e).insert(e[i].0, v) =~= to_map(e.drop_last()).insert(e[i].0, v));
    } else {
        lemma_to_map_update(e.drop_last(), i, v);
        assert(u.drop_last() =~= e.drop_last().update(i, (e[i].0, v)));
        assert(to_map(u) =~= to_map(e).insert(e[i].0, v));
    }
}


/// Reading an escaped field adds the field itself to the one being read.
proof fn lemma_scan_escape(f: Seq<char>, rest: Seq<char>, d: char, cur: Seq<char>)
    ensures
        scan(escape(f, d) + rest, d, cur) == scan(rest, d, cur + f),
    decreases f.len(),
{
    let s = escape(f, d) + rest;
    if f.len() == 0 {
        assert(s =~= rest);
        assert(cur + f =~= cur);
    } else {
        let g = f.drop_first();
        lemma_scan_escape(g, rest, d, cur.push(f[0]));
        assert(cur.push(f[0]) + g =~= cur + f);
        if f[0] == d {
            assert(s.skip(2) =~= escape(g, d) + rest);
        } else {
            assert(s.drop_first() =~= escape(g, d) + rest);
        }
    }
}

/// A field that does not begin with the delimiter is written beginning with its own
/// first character.
proof fn lemma_join_first(ff: Seq<Seq<char>>, d: char)
    requires
        ff.len() > 0,
        ff[0].len() > 0,
        ff[0][0] != d,
    ensures
        join(ff, d).len() > 0,
        join(ff, d)[0] == ff[0][0],
{
    let e = escape(ff[0], d);
    assert(e[0] == ff[0][0]);
}

/// Reading the fields written by `join` gives them back, when none is empty and
/// none but the first begins with the delimiter.
proof fn lemma_scan_join(ff: Seq<Seq<char>>, d: char)
    requires
        ff.len() >= 1,
        forall|i: int| 0 <= i < ff.len() ==> (#[trigger] ff[i]).len() > 0,
        forall|i: int| 1 <= i < ff.len() ==> (#[trigger] ff[i])[0] != d,
    ensures
        scan(join(ff, d), d, seq![]) == ff,
    decreases ff.len(),
{
    let f = ff[0];
    assert(f.len() > 0);
    if ff.len() == 1 {
        lemma_scan_escape(f, seq![], d, seq![]);
        assert(escape(f, d) + seq![] =~= escape(f, d));
        assert(Seq::<char>::empty() + f =~= f);
        assert(seq![f] =~= ff);
    } else {
        let rest = ff.drop_first();
        assert(rest[0] == ff[1]);
        assert(forall|i: int| 1 <= i < rest.len() ==> #[trigger] rest[i] == ff[i + 1]);
        lemma_scan_join(rest, d);
        lemma_join_first(rest, d);
        let tail = seq![d] + join(rest, d);
        assert(join(ff, d) =~= escape(f, d) + tail);
        lemma_scan_escape(f, tail, d, seq![]);
        assert(Seq::<char>::empty() + f =~= f);
        assert(tail.drop_first() =~= join(rest, d));
        assert(seq![f] + rest =~= ff);
    }
}

/// Encoding a text and decoding the result gives back its delimiter and mapping,
/// when no key or value is empty, none but the first key begins with the delimiter,
/// and every key is already in upper case.
pub proof fn lemma_text_round_trip(t: Text)
    requires
        t.wf(),
        t.entries().len() >= 1,
        forall|j: int|
            0 <= j < t.entries().len() ==> (#[trigger] t.entries()[j]).0.len() > 0
                && t.entries()[j].1.len() > 0 && t.entries()[j].1[0] != t.delimiter,
        forall|j: int| 1 <= j < t.entries().len() ==> (#[trigger] t.entries()[j]).0[0] != t.delimiter,
        forall|j: int|
            0 <= j < t.entries().len() ==> upper_of((#[trigger] t.entries()[j]).0) == t.entries()[j].0,
    ensures
        decode_text(encode_text(t.delimiter, t.entries())) == Some((t.delimiter, t.map())),
{
    let d = t.delimiter;
    let e = t.entries();
    let ff = fields_of(e);
    let s = encode_text(d, e);
    assert forall|i: int| 0 <= i < ff.len() implies (#[trigger] ff[i]).len() > 0 by {
        assert(e[i / 2] == t.entries()[i / 2]);
    }
    assert forall|i: int| 1 <= i < ff.len() implies (#[trigger] ff[i])[0] != d by {
        assert(e[i / 2] == t.entries()[i / 2]);
    }
    lemma_scan_join(ff, d);
    assert(s.drop_first() =~= join(ff, d));
    assert(text_fields(s) == ff);
    assert(fields_ok(ff));
    assert forall|j: int| 0 <= j < e.len() implies #[trigger] pairs_of(ff)[j] == e[j] by {
        assert((2 * j) / 2 == j && (2 * j) % 2 == 0);
        assert((2 * j + 1) / 2 == j && (2 * j + 1) % 2 == 1);
        assert(e[j] == t.entries()[j]);
    }
    assert(pairs_of(ff) =~= e);
}

/// The last pair with a key gives that key its value.
proof fn lemma_to_map_last(e: Seq<(Seq<char>, Seq<char>)>, j: int)
    requires
        0 <= j < e.len(),
        forall|i: int| j < i < e.len() ==> (#[trigger] e[i]).0 != e[j].0,
    ensures
        to_map(e).contains_key(e[j].0),
        to_map(e)[e[j].0] == e[j].1,
    decreases e.len(),
{
    if j < e.len() - 1 {
        assert(e.last() == e[e.len() - 1]);
        lemma_to_map_last(e.drop_last(), j);
    }
}

/// Every key of the mapping is the key of some pair, and its value that pair's value.
proof fn lemma_to_map_keys(e: Seq<(Seq<char>, Seq<char>)>, k: Seq<char>)
    requires
        to_map(e).contains_key(k),
    ensures
        exists|i: int| 0 <= i < e.len() && (#[trigger] e[i]).0 == k && e[i].1 == to_map(e)[k],
    decreases e.len(),
{
    if e.len() > 0 && e.last().0 != k {
        lemma_to_map_keys(e.drop_last(), k);
        let i = choose|i: int|
            0 <= i < e.drop_last().len() && (#[trigger] e.drop_last()[i]).0 == k
                && e.drop_last()[i].1 == to_map(e.drop_last())[k];
        assert(e[i] == e.drop_last()[i]);
    } else {
        assert(e[e.len() - 1] == e.last());
    }
}

/// Every key of a decoded text is the upper case of a key field, and a key takes the
/// value of the last key field whose upper case it is.
pub proof fn lemma_decoded_keys(s: Seq<char>, k: Seq<char>, j: int)
    requires
        decode_text(s) is Some,
        0 <= j < text_fields(s).len() / 2,
        forall|i: int|
            j < i < text_fields(s).len() / 2 ==> upper_of(#[trigger] text_fields(s)[2 * i])
                != upper_of(text_fields(s)[2 * j]),
    ensures
        decode_text(s)->Some_0.1.contains_key(upper_of(text_fields(s)[2 * j])),
        decode_text(s)->Some_0.1[upper_of(text_fields(s)[2 * j])] == text_fields(s)[2 * j + 1],
        decode_text(s)->Some_0.1.contains_key(k) ==> exists|i: int|
            0 <= i < text_fields(s).len() / 2 && upper_of(#[trigger] text_fields(s)[2 * i]) == k,
{
    let ff = text_fields(s);
    let e = pairs_of(ff);
    assert forall|i: int| j < i < e.len() implies (#[trigger] e[i]).0 != e[j].0 by {
        assert(upper_of(ff[2 * i]) != upper_of(ff[2 * j]));
    }
    lemma_to_map_last(e, j);
    if to_map(e).contains_key(k) {
        lemma_to_map_keys(e, k);
        let i = choose|i: int| 0 <= i < e.len() && (#[trigger] e[i]).0 == k;
        assert(upper_of(ff[2 * i]) == k);
    }
}

/// The first field read starts with the first character of the field being read.
proof fn lemma_scan_head(s: Seq<char>, d: char, cur: Seq<char>)
    requires
        cur.len() > 0,
    ensures
        scan(s, d, cur).len() > 0,
        scan(s, d, cur)[0].len() > 0,
        scan(s, d, cur)[0][0] == cur[0],
    decreases s.len(),
{
    if s.len() == 0 {
    } else if s.len() >= 2 && s[0] == d && s[1] == d {
        lemma_scan_head(s.skip(2), d, cur.push(d));
    } else if s[0] == d {
    } else {
        lemma_scan_head(s.drop_first(), d, cur.push(s[0]));
    }
}

/// No field but the first begins with the delimiter: a delimiter that ends a field is
/// never followed by another.
proof fn lemma_scan_later_fields(s: Seq<char>, d: char, cur: Seq<char>)
    ensures
        forall|i: int|
            1 <= i < scan(s, d, cur).len() && (#[trigger] scan(s, d, cur)[i]).len() > 0
                ==> scan(s, d, cur)[i][0] != d,
    decreases s.len(),
{
    let ff = scan(s, d, cur);
    if s.len() == 0 {
    } else if s.len() >= 2 && s[0] == d && s[1] == d {
        lemma_scan_later_fields(s.skip(2), d, cur.push(d));
        assert(ff == scan(s.skip(2), d, cur.push(d)));
    } else if s[0] == d {
        let rest = s.drop_first();
        let inner = scan(rest, d, seq![]);
        lemma_scan_later_fields(rest, d, seq![]);
        if rest.len() > 0 {
            assert(rest[0] != d);
            lemma_scan_head(rest.drop_first(), d, seq![rest[0]]);
            assert(Seq::<char>::empty().push(rest[0]) =~= seq![rest[0]]);
            assert(inner == scan(rest.drop_first(), d, seq![rest[0]]));
            assert(inner[0][0] != d);
        }
        assert(ff == seq![cur] + inner);
        assert forall|i: int| 1 <= i < ff.len() && (#[trigger] ff[i]).len() > 0 implies ff[i][0] != d by {
            assert(ff[i] == inner[i - 1]);
        }
    } else {
        lemma_scan_later_fields(s.drop_first(), d, cur.push(s[0]));
        assert(ff == scan(s.drop_first(), d, cur.push(s[0])));
    }
}

/// A text that holds what decoding some segment gave survives encoding and decoding
/// again, when its keys are not empty, already in upper case, and none but the first
/// begins with the delimiter. Values need no condition: decoding never gives one that
/// is empty or begins with the delimiter.
pub proof fn lemma_decoded_round_trip(s: Seq<char>, t: Text)
    requires
        decode_text(s) == Some((t.delimiter, t.map())),
        t.wf(),
        forall|j: int|
            0 <= j < t.entries().len() ==> (#[trigger] t.entries()[j]).0.len() > 0 && upper_of(
                t.entries()[j].0,
            ) == t.entries()[j].0,
        forall|j: int| 1 <= j < t.entries().len() ==> (#[trigger] t.entries()[j]).0[0] != t.delimiter,
    ensures
        decode_text(encode_text(t.delimiter, t.entries())) == Some((t.delimiter, t.map())),
{
    let d = t.delimiter;
    let e = t.entries();
    let ff = text_fields(s);
    let p = pairs_of(ff);
    assert(s[0] == d);
    lemma_scan_later_fields(s.drop_first(), d, seq![]);
    let last = ff.len() / 2 - 1;
    lemma_to_map_last(p, last);
    if e.len() == 0 {
        assert(to_map(e) == Map::<Seq<char>, Seq<char>>::empty());
        assert(t.map().contains_key(p[last].0));
    }
    assert forall|j: int| 0 <= j < e.len() implies (#[trigger] e[j]).1.len() > 0 && e[j].1[0] != d by {
        lemma_to_map_index(e, j);
        lemma_to_map_keys(p, e[j].0);
        let i = choose|i: int| 0 <= i < p.len() && (#[trigger] p[i]).0 == e[j].0 && p[i].1 == to_map(p)[e[j].0];
        assert(p[i].1 == ff[2 * i + 1]);
        assert(ff[2 * i + 1].len() > 0);
    }
    lemma_text_round_trip(t);
}

} // verus!

//! The header block of a request: lines after the request line up to the
//! first blank one, folded continuation lines, and a case-insensitive
//! multi-valued map from names to values.
use vstd::prelude::*;
use vstd::string::StringSliceAdditionalSpecFns;
use crate::text::{
    CR, LF, first_index, lemma_first_index_bounds, lower, trim, find_byte, copy_range, trimmed,
    lowercase, has_prefix,
};

verus! {

pub const COLON: u8 = 58;

pub const SPACE: u8 = 32;

pub const TAB: u8 = 9;

/// One line without its line feed, and without a carriage return that stood
/// right before that line feed.
pub open spec fn strip_cr(l: Seq<u8>) -> Seq<u8> {
    if l.len() > 0 && l.last() == CR {
        l.drop_last()
    } else {
        l
    }
}

/// The lines of `s` as `str::lines` splits them: at each line feed, with a
/// final line ending being optional.
pub open spec fn lines_of(s: Seq<u8>) -> Seq<Seq<u8>>
    decreases s.len(),
{
    if s.len() == 0 {
        seq![]
    } else {
        match first_index(s, LF) {
            Some(i) => if i < s.len() {
                seq![strip_cr(s.subrange(0, i as int))] + lines_of(
                    s.subrange((i + 1) as int, s.len() as int),
                )
            } else {
                seq![]
            },
            None => seq![s],
        }
    }
}

/// The lines before the first empty one.
pub open spec fn until_blank(ls: Seq<Seq<u8>>) -> Seq<Seq<u8>>
    decreases ls.len(),
{
    if ls.len() == 0 || ls[0].len() == 0 {
        seq![]
    } else {
        seq![ls[0]] + until_blank(ls.drop_first())
    }
}

/// The header lines of a request: those after the request line and before
/// the first blank line.
pub open spec fn block_lines(s: Seq<u8>) -> Seq<Seq<u8>> {
    let ls = lines_of(s);
    if ls.len() == 0 {
        seq![]
    } else {
        until_blank(ls.drop_first())
    }
}

/// A header name with its values, in order of arrival.
pub type EntryModel = (Seq<u8>, Seq<Seq<u8>>);

/// Whether `i` is the first position of an entry named `k`.
pub open spec fn is_first_key(es: Seq<EntryModel>, k: Seq<u8>, i: int) -> bool {
    0 <= i < es.len() && es[i].0 == k && forall|j: int| 0 <= j < i ==> es[j].0 != k
}

pub open spec fn has_key(es: Seq<EntryModel>, k: Seq<u8>) -> bool {
    exists|i: int| 0 <= i < es.len() && es[i].0 == k
}

/// The position of the entry named `k`.
pub open spec fn key_index(es: Seq<EntryModel>, k: Seq<u8>) -> int {
    choose|i: int| is_first_key(es, k, i)
}

/// The values stored under `k`.
pub open spec fn values_of(es: Seq<EntryModel>, k: Seq<u8>) -> Option<Seq<Seq<u8>>> {
    if has_key(es, k) {
        Some(es[key_index(es, k)].1)
    } else {
        None
    }
}

/// Adds `v` as the newest value of `k`.
pub open spec fn add_value(es: Seq<EntryModel>, k: Seq<u8>, v: Seq<u8>) -> Seq<EntryModel> {
    if has_key(es, k) {
        let i = key_index(es, k);
        es.update(i, (k, es[i].1.push(v)))
    } else {
        es.push((k, seq![v]))
    }
}

/// Appends `t` to the newest value of `k`.
pub open spec fn extend_last(es: Seq<EntryModel>, k: Seq<u8>, t: Seq<u8>) -> Seq<EntryModel> {
    if has_key(es, k) {
        let i = key_index(es, k);
        let vs = es[i].1;
        if vs.len() > 0 {
            es.update(i, (k, vs.update(vs.len() - 1, vs.last() + t)))
        } else {
            es
        }
    } else {
        es
    }
}

/// The map built so far, and the name of the header read last.
pub struct BlockState {
    pub entries: Seq<EntryModel>,
    pub last: Option<Seq<u8>>,
}

pub open spec fn is_continuation(line: Seq<u8>) -> bool {
    line.len() > 0 && (line[0] == SPACE || line[0] == TAB)
}

/// The lower-cased, trimmed name of a `name: value` line split at `c`.
pub open spec fn name_part(line: Seq<u8>, c: int) -> Seq<u8> {
    lower(trim(line.subrange(0, c)))
}

/// The trimmed value of a `name: value` line split at `c`.
pub open spec fn value_part(line: Seq<u8>, c: int) -> Seq<u8> {
    trim(line.subrange(c + 1, line.len() as int))
}

/// What one header line does to the map.
pub open spec fn step(st: BlockState, line: Seq<u8>) -> BlockState {
    if is_continuation(line) {
        match st.last {
            Some(k) => BlockState { entries: extend_last(st.entries, k, trim(line)), last: st.last },
            None => st,
        }
    } else {
        match first_index(line, COLON) {
            Some(c) => BlockState {
                entries: add_value(st.entries, name_part(line, c as int), value_part(line, c as int)),
                last: Some(name_part(line, c as int)),
            },
            None => st,
        }
    }
}

/// The map that a sequence of header lines builds.
pub open spec fn fold_lines(lines: Seq<Seq<u8>>) -> BlockState
    decreases lines.len(),
{
    if lines.len() == 0 {
        BlockState { entries: seq![], last: None }
    } else {
        step(fold_lines(lines.drop_last()), lines.last())
    }
}

/// The header map of the request text `s`.
pub open spec fn header_model(s: Seq<u8>) -> Seq<EntryModel> {
    fold_lines(block_lines(s)).entries
}

/// One header name and its values.
pub struct Header {
    pub name: Vec<u8>,
    pub values: Vec<Vec<u8>>,
}

pub open spec fn values_view(vs: Seq<Vec<u8>>) -> Seq<Seq<u8>> {
    vs.map_values(|v: Vec<u8>| v@)
}

impl Header {
    pub open spec fn view(&self) -> EntryModel {
        (self.name@, values_view(self.values@))
    }
}

/// Header names (lower-cased) with their values, in order of first arrival.
pub struct HeaderMap {
    entries: Vec<Header>,
}

impl HeaderMap {
    pub closed spec fn view(&self) -> Seq<EntryModel> {
        self.entries@.map_values(|h: Header| h.view())
    }

    pub fn new() -> (r: HeaderMap)
        ensures
            r@ == Seq::<EntryModel>::empty(),
    {
        let r = HeaderMap { entries: Vec::new() };
        assert(r@ =~= Seq::<EntryModel>::empty());
        r
    }

    /// The number of distinct header names.
    pub fn len(&self) -> (r: usize)
        ensures
            r == self@.len(),
    {
        self.entries.len()
    }

    fn position(&self, k: &[u8]) -> (r: Option<usize>)
        ensures
            match r {
                Some(i) => is_first_key(self@, k@, i as int),
                None => !has_key(self@, k@),
            },
    {
        let mut i: usize = 0;
        while i < self.entries.len()
            invariant
                i <= self.entries@.len(),
                forall|j: int| 0 <= j < i ==> self.entries@[j].name@ != k@,
            decreases self.entries@.len() - i,
        {
            assert(self@[i as int].0 == self.entries@[i as int].name@);
            let name = self.entries[i].name.as_slice();
            assert(name@.subrange(0, name@.len() as int) =~= name@);
            if name.len() == k.len() && has_prefix(name, k) {
                assert(name@.subrange(0, k@.len() as int) =~= name@);
                assert forall|j: int| 0 <= j < i implies self@[j].0 != k@ by {
                    assert(self@[j].0 == self.entries@[j].name@);
                }
                return Some(i);
            }
            i = i + 1;
        }
        assert forall|j: int| 0 <= j < self@.len() implies self@[j].0 != k@ by {
            assert(self@[j].0 == self.entries@[j].name@);
        }
        None
    }

    /// All values of the header named `name` (which must be lower case to
    /// be found), oldest first.
    pub fn get(&self, name: &[u8]) -> (r: Option<&Vec<Vec<u8>>>)
        ensures
            match r {
                Some(vs) => values_of(self@, name@) == Some(values_view(vs@)),
                None => values_of(self@, name@) is None,
            },
    {
        match self.position(name) {
            Some(i) => {
                proof {
                    lemma_key_index(self@, name@, i as int);
                }
                Some(&self.entries[i].values)
            },
            None => None,
        }
    }

    /// The first value of the header named `name`.
    pub fn first(&self, name: &[u8]) -> (r: Option<&Vec<u8>>)
        ensures
            match r {
                Some(v) => values_of(self@, name@) is Some && values_of(self@, name@)->0.len() > 0
                    && v@ == values_of(self@, name@)->0[0],
                None => values_of(self@, name@) is None || values_of(self@, name@)->0.len() == 0,
            },
    {
        match self.get(name) {
            Some(vs) => {
                if vs.len() > 0 {
                    Some(&vs[0])
                } else {
                    None
                }
            },
            None => None,
        }
    }

    fn add_value(&mut self, k: Vec<u8>, v: Vec<u8>)
        ensures
            final(self)@ == add_value(old(self)@, k@, v@),
    {
        match self.position(k.as_slice()) {
            Some(i) => {
                proof {
                    lemma_key_index(self@, k@, i as int);
                }
                let ghost vs = self.entries@[i as int].values;
                self.entries[i].values.push(v);
                assert(values_view(self.entries@[i as int].values@) =~= values_view(vs@).push(v@));
                assert(self@ =~= add_value(old(self)@, k@, v@));
            },
            None => {
                let mut values: Vec<Vec<u8>> = Vec::new();
                values.push(v);
                assert(values_view(values@) =~= seq![v@]);
                self.entries.push(Header { name: k, values });
                assert(self@ =~= add_value(old(self)@, k@, v@));
            },
        }
    }

    fn extend_last(&mut self, k: &[u8], t: &[u8])
        ensures
            final(self)@ == extend_last(old(self)@, k@, t@),
    {
        match self.position(k) {
            Some(i) => {
                proof {
                    lemma_key_index(self@, k@, i as int);
                }
                let n = self.entries[i].values.len();
                if n > 0 {
                    let ghost vs = self.entries@[i as int].values;
                    crate::text::append_bytes(&mut self.entries[i].values[n - 1], t);
                    assert(values_view(self.entries@[i as int].values@) =~= values_view(vs@).update(
                        n - 1,
                        values_view(vs@).last() + t@,
                    ));
                    assert(self@ =~= extend_last(old(self)@, k@, t@));
                }
            },
            None => {},
        }
    }
}

pub open spec fn opt_view(o: Option<Vec<u8>>) -> Option<Seq<u8>> {
    match o {
        Some(v) => Some(v@),
        None => None,
    }
}

/// `trim(s[a..b])` as a new vector.
fn trimmed_range(s: &[u8], a: usize, b: usize) -> (r: Vec<u8>)
    requires
        a <= b <= s@.len(),
    ensures
        r@ == trim(s@.subrange(a as int, b as int)),
{
    let part = copy_range(s, a, b);
    trimmed(part.as_slice())
}

/// Applies one header line to the map and to the name of the header read
/// last.
fn apply_line(map: &mut HeaderMap, last: Option<Vec<u8>>, line: &[u8]) -> (r: Option<Vec<u8>>)
    ensures
        step(BlockState { entries: old(map)@, last: opt_view(last) }, line@) == (BlockState {
            entries: final(map)@,
            last: opt_view(r),
        }),
{
    if line.len() > 0 && (line[0] == SPACE || line[0] == TAB) {
        match &last {
            Some(k) => {
                let t = trimmed(line);
                map.extend_last(k.as_slice(), t.as_slice());
                assert(is_continuation(line@));
                assert(map@ == step(BlockState { entries: old(map)@, last: opt_view(last) }, line@).entries);
            },
            None => {},
        }
        last
    } else {
        match find_byte(line, 0, COLON) {
            Some(c) => {
                assert(line@.subrange(0, line@.len() as int) =~= line@);
                let raw = trimmed_range(line, 0, c);
                let name = lowercase(raw.as_slice());
                let value = trimmed_range(line, c + 1, line.len());
                let key = copy_range(name.as_slice(), 0, name.len());
                assert(name@.subrange(0, name@.len() as int) =~= name@);
                map.add_value(key, value);
                proof {
                    lemma_first_index_bounds(line@, COLON);
                }
                assert(key@ == name_part(line@, c as int));
                assert(value@ == value_part(line@, c as int));
                Some(name)
            },
            None => {
                assert(line@.subrange(0, line@.len() as int) =~= line@);
                last
            },
        }
    }
}

proof fn lemma_until_blank_cons(l: Seq<u8>, rest: Seq<Seq<u8>>)
    ensures
        until_blank(seq![l] + rest) == (if l.len() == 0 {
            Seq::<Seq<u8>>::empty()
        } else {
            seq![l] + until_blank(rest)
        }),
{
    assert((seq![l] + rest).drop_first() =~= rest);
    assert((seq![l] + rest)[0] == l);
}

proof fn lemma_fold_push(hl: Seq<Seq<u8>>, l: Seq<u8>)
    ensures
        fold_lines(hl.push(l)) == step(fold_lines(hl), l),
{
    assert(hl.push(l).drop_last() =~= hl);
}

/// Parses the header block of the request bytes `s`: the lines after the
/// request line, up to the first blank line. A line that starts with a space
/// or a tab continues the value read last; any other line is split at its
/// first colon into a name (trimmed, lower-cased) and a trimmed value; lines
/// with neither are skipped.
pub fn parse_header_bytes(s: &[u8]) -> (r: HeaderMap)
    ensures
        r@ == header_model(s@),
        well_formed(r@),
{
    proof {
        lemma_header_model_well_formed(s@);
    }
    let n = s.len();
    let mut map = HeaderMap::new();
    let mut last: Option<Vec<u8>> = None;
    if n == 0 {
        assert(block_lines(s@) =~= Seq::<Seq<u8>>::empty());
        return map;
    }
    let mut pos: usize = 0;
    proof {
        lemma_first_index_bounds(s@, LF);
    }
    assert(s@.subrange(0, n as int) =~= s@);
    match find_byte(s, 0, LF) {
        Some(j) => {
            pos = j + 1;
        },
        None => {
            assert(lines_of(s@) == seq![s@]);
            assert(block_lines(s@) =~= Seq::<Seq<u8>>::empty());
            assert(map@ =~= Seq::<EntryModel>::empty());
            return map;
        },
    }
    assert(s@.subrange(0, n as int) =~= s@);
    assert(lines_of(s@).drop_first() =~= lines_of(s@.subrange(pos as int, n as int)));
    let ghost mut hl: Seq<Seq<u8>> = seq![];
    assert(hl + until_blank(lines_of(s@.subrange(pos as int, n as int))) =~= block_lines(s@));
    while pos < n
        invariant
            pos <= n == s@.len(),
            block_lines(s@) == hl + until_blank(lines_of(s@.subrange(pos as int, n as int))),
            fold_lines(hl) == (BlockState { entries: map@, last: opt_view(last) }),
        ensures
            block_lines(s@) == hl,
            fold_lines(hl) == (BlockState { entries: map@, last: opt_view(last) }),
        decreases n - pos,
    {
        let ghost t = s@.subrange(pos as int, n as int);
        proof {
            lemma_first_index_bounds(t, LF);
        }
        let mut e: usize = n;
        let mut next: usize = n;
        match find_byte(s, pos, LF) {
            Some(j) => {
                e = j;
                next = j + 1;
                if e > pos && s[e - 1] == CR {
                    e = e - 1;
                }
                assert(t.subrange(0, j - pos) =~= s@.subrange(pos as int, j as int));
                assert(t.subrange(j - pos + 1, t.len() as int) =~= s@.subrange(next as int, n as int));
            },
            None => {
                assert(s@.subrange(n as int, n as int) =~= Seq::<u8>::empty());
            },
        }
        let line = copy_range(s, pos, e);
        assert(lines_of(t) == seq![line@] + lines_of(s@.subrange(next as int, n as int))) by {
            if first_index(t, LF) is Some {
                let j = first_index(t, LF)->0;
                if j > 0 && t[j - 1] == CR {
                    assert(s@.subrange(pos as int, j + pos - 1) =~= t.subrange(0, j as int).drop_last());
                } else {
                    assert(s@.subrange(pos as int, (j + pos) as int) =~= t.subrange(0, j as int));
                }
            } else {
                assert(seq![t] + Seq::<Seq<u8>>::empty() =~= seq![t]);
            }
        }
        proof {
            lemma_until_blank_cons(line@, lines_of(s@.subrange(next as int, n as int)));
        }
        if line.len() == 0 {
            assert(hl + Seq::<Seq<u8>>::empty() =~= hl);
            break;
        }
        last = apply_line(&mut map, last, line.as_slice());
        proof {
            lemma_fold_push(hl, line@);
            assert(hl + (seq![line@] + until_blank(lines_of(s@.subrange(next as int, n as int))))
                =~= hl.push(line@) + until_blank(lines_of(s@.subrange(next as int, n as int))));
            hl = hl.push(line@);
        }
        pos = next;
    }
    proof {
        if pos == n {
            assert(s@.subrange(n as int, n as int) =~= Seq::<u8>::empty());
            assert(hl + Seq::<Seq<u8>>::empty() =~= hl);
        }
    }
    map
}

/// Parses the header block of the request text `request`; see
/// `parse_header_bytes`.
pub fn parse_headers(request: &str) -> (r: HeaderMap)
    ensures
        r@ == header_model(request.spec_bytes()),
        well_formed(r@),
{
    parse_header_bytes(request.as_bytes())
}

/// The trimmed texts of `conts`, joined in order.
pub open spec fn joined_trims(conts: Seq<Seq<u8>>) -> Seq<u8>
    decreases conts.len(),
{
    if conts.len() == 0 {
        seq![]
    } else {
        joined_trims(conts.drop_last()) + trim(conts.last())
    }
}

/// A name that occurs has a first occurrence, which `key_index` finds.
proof fn lemma_first_key_exists(es: Seq<EntryModel>, k: Seq<u8>)
    requires
        has_key(es, k),
    ensures
        is_first_key(es, k, key_index(es, k)),
    decreases es.len(),
{
    let init = es.drop_last();
    if has_key(init, k) {
        lemma_first_key_exists(init, k);
        let i = key_index(init, k);
        assert forall|j: int| 0 <= j <= i implies es[j] == init[j] by {}
        assert(is_first_key(es, k, i));
    } else {
        assert forall|j: int| 0 <= j < es.len() - 1 implies es[j].0 != k by {
            assert(es[j] == init[j]);
        }
        assert(is_first_key(es, k, es.len() - 1));
    }
}

proof fn lemma_add_value(es: Seq<EntryModel>, k: Seq<u8>, v: Seq<u8>)
    ensures
        values_of(add_value(es, k, v), k) == Some(
            match values_of(es, k) {
                Some(vs) => vs.push(v),
                None => seq![v],
            },
        ),
{
    let es2 = add_value(es, k, v);
    if has_key(es, k) {
        let i = key_index(es, k);
        lemma_first_key_exists(es, k);
        assert(is_first_key(es2, k, i));
        lemma_key_index(es2, k, i);
    } else {
        assert(is_first_key(es2, k, es.len() as int));
        lemma_key_index(es2, k, es.len() as int);
    }
}

proof fn lemma_extend_last(es: Seq<EntryModel>, k: Seq<u8>, t: Seq<u8>)
    requires
        values_of(es, k) is Some,
        values_of(es, k)->0.len() > 0,
    ensures
        values_of(extend_last(es, k, t), k) is Some,
        values_of(extend_last(es, k, t), k)->0.len() == values_of(es, k)->0.len(),
        values_of(extend_last(es, k, t), k)->0.last() == values_of(es, k)->0.last() + t,
{
    let es2 = extend_last(es, k, t);
    let i = key_index(es, k);
    lemma_first_key_exists(es, k);
    assert(is_first_key(es2, k, i));
    lemma_key_index(es2, k, i);
}

/// Folded headers: after a `name: value` line followed by continuation
/// lines (each starting with a space or a tab), the newest value stored
/// under the name is the line's own trimmed value followed by the trimmed
/// text of each continuation line, concatenated in order.
pub proof fn lemma_folded_header(pre: Seq<Seq<u8>>, line: Seq<u8>, c: nat, conts: Seq<Seq<u8>>)
    requires
        !is_continuation(line),
        first_index(line, COLON) == Some(c),
        forall|i: int| 0 <= i < conts.len() ==> is_continuation(#[trigger] conts[i]),
    ensures
        ({
            let st = fold_lines(pre + seq![line] + conts);
            let k = name_part(line, c as int);
            &&& st.last == Some(k)
            &&& values_of(st.entries, k) is Some
            &&& values_of(st.entries, k)->0.len() > 0
            &&& values_of(st.entries, k)->0.last() == value_part(line, c as int) + joined_trims(
                conts,
            )
        }),
    decreases conts.len(),
{
    let k = name_part(line, c as int);
    if conts.len() == 0 {
        assert(pre + seq![line] + conts =~= pre.push(line));
        lemma_fold_push(pre, line);
        lemma_add_value(fold_lines(pre).entries, k, value_part(line, c as int));
        assert(value_part(line, c as int) + joined_trims(conts) =~= value_part(line, c as int));
    } else {
        let init = conts.drop_last();
        assert forall|i: int| 0 <= i < init.len() implies is_continuation(#[trigger] init[i]) by {
            assert(init[i] == conts[i]);
        }
        lemma_folded_header(pre, line, c, init);
        let all = pre + seq![line] + conts;
        assert(all =~= (pre + seq![line] + init).push(conts.last()));
        lemma_fold_push(pre + seq![line] + init, conts.last());
        let st0 = fold_lines(pre + seq![line] + init);
        assert(is_continuation(conts[conts.len() - 1]));
        lemma_extend_last(st0.entries, k, trim(conts.last()));
        assert(value_part(line, c as int) + joined_trims(conts) =~= value_part(line, c as int)
            + joined_trims(init) + trim(conts.last()));
    }
}

/// Every stored name is lower case, and no name is stored twice.
pub open spec fn well_formed(es: Seq<EntryModel>) -> bool {
    &&& forall|i: int| 0 <= i < es.len() ==> lower(#[trigger] es[i].0) == es[i].0
    &&& forall|i: int, j: int| 0 <= i < j < es.len() ==> es[i].0 != es[j].0
}

proof fn lemma_lower_idempotent(s: Seq<u8>)
    ensures
        lower(lower(s)) == lower(s),
{
    assert(lower(lower(s)) =~= lower(s));
}

/// Header maps are well formed: names are stored lower-cased, each once.
pub proof fn lemma_fold_well_formed(lines: Seq<Seq<u8>>)
    ensures
        well_formed(fold_lines(lines).entries),
    decreases lines.len(),
{
    if lines.len() > 0 {
        lemma_fold_well_formed(lines.drop_last());
        let st = fold_lines(lines.drop_last());
        let es = st.entries;
        let line = lines.last();
        if is_continuation(line) {
            if let Some(k) = st.last {
                if has_key(es, k) {
                    lemma_first_key_exists(es, k);
                }
                let es2 = extend_last(es, k, trim(line));
                assert(forall|i: int| 0 <= i < es.len() ==> es2[i].0 == es[i].0);
            }
        } else if let Some(c) = first_index(line, COLON) {
            let k = name_part(line, c as int);
            lemma_lower_idempotent(trim(line.subrange(0, c as int)));
            if has_key(es, k) {
                lemma_first_key_exists(es, k);
            }
            let es2 = add_value(es, k, value_part(line, c as int));
            if has_key(es, k) {
                assert(forall|i: int| 0 <= i < es.len() ==> es2[i].0 == es[i].0);
            } else {
                assert(forall|i: int| 0 <= i < es.len() ==> es2[i].0 == es[i].0);
                assert(es2[es.len() as int].0 == k);
            }
        }
    }
}

/// The map that `parse_header_bytes` builds is well formed.
pub proof fn lemma_header_model_well_formed(s: Seq<u8>)
    ensures
        well_formed(header_model(s)),
{
    lemma_fold_well_formed(block_lines(s));
}

pub proof fn lemma_key_index(es: Seq<EntryModel>, k: Seq<u8>, i: int)
    requires
        is_first_key(es, k, i),
    ensures
        has_key(es, k),
        key_index(es, k) == i,
{
    let j = key_index(es, k);
    assert(is_first_key(es, k, j));
    if j < i {
        assert(es[j].0 != k);
    }
    if i < j {
        assert(es[i].0 != k);
    }
}

} // verus!

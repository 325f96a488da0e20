use vstd::prelude::*;
use crate::error::SchemError;

verus! {

/// The index of the first `c` in `t`, or -1 where `t` holds none.
pub open spec fn first_index(t: Seq<char>, c: char) -> int
    decreases t.len(),
{
    if t.len() == 0 {
        -1
    } else {
        let r = first_index(t.drop_last(), c);
        if r >= 0 {
            r
        } else if t.last() == c {
            t.len() - 1
        } else {
            -1
        }
    }
}

/// The pieces of `t` between the occurrences of `c`; there is always at least one.
pub open spec fn split(t: Seq<char>, c: char) -> Seq<Seq<char>>
    decreases t.len(),
{
    if t.len() == 0 {
        seq![Seq::empty()]
    } else {
        let s = split(t.drop_last(), c);
        if t.last() == c {
            s.push(Seq::empty())
        } else {
            s.update(s.len() - 1, s.last().push(t.last()))
        }
    }
}

/// A property entry `key=value`, split at its first `=`.
pub open spec fn pair_of(e: Seq<char>) -> Option<(Seq<char>, Seq<char>)> {
    let j = first_index(e, '=');
    if j < 0 {
        None
    } else {
        Some((e.subrange(0, j), e.subrange(j + 1, e.len() as int)))
    }
}

/// The properties of the entries `es`, or `None` where one has no `=`.
pub open spec fn parse_props(es: Seq<Seq<char>>) -> Option<Seq<(Seq<char>, Seq<char>)>>
    decreases es.len(),
{
    if es.len() == 0 {
        Some(Seq::empty())
    } else {
        match (parse_props(es.drop_last()), pair_of(es.last())) {
            (Some(ps), Some(p)) => Some(ps.push(p)),
            _ => None,
        }
    }
}

/// The text between the brackets: what follows the first `[`, less one closing `]`.
pub open spec fn props_body(t: Seq<char>, j: int) -> Seq<char> {
    let b = t.subrange(j + 1, t.len() as int);
    if b.len() > 0 && b.last() == ']' {
        b.drop_last()
    } else {
        b
    }
}

/// What parsing the text `t` of a block state gives: its identifier and its
/// properties in the order written.
pub open spec fn parse_text(t: Seq<char>) -> Result<
    (Seq<char>, Seq<(Seq<char>, Seq<char>)>),
    SchemError,
> {
    let j = first_index(t, '[');
    if j < 0 {
        Ok((t, Seq::empty()))
    } else {
        match parse_props(split(props_body(t, j), ',')) {
            Some(ps) => Ok((t.subrange(0, j), ps)),
            None => Err(SchemError::MalformedProperty),
        }
    }
}

pub open spec fn entry_text(p: (Seq<char>, Seq<char>)) -> Seq<char> {
    p.0 + seq!['='] + p.1
}

/// The entries of `ps`, separated by commas.
pub open spec fn join_props(ps: Seq<(Seq<char>, Seq<char>)>) -> Seq<char>
    decreases ps.len(),
{
    if ps.len() == 0 {
        Seq::empty()
    } else if ps.len() == 1 {
        entry_text(ps[0])
    } else {
        join_props(ps.drop_last()) + seq![','] + entry_text(ps.last())
    }
}

/// The canonical text of a block state: `id`, or `id[k=v,...]`.
pub open spec fn format_text(id: Seq<char>, ps: Seq<(Seq<char>, Seq<char>)>) -> Seq<char> {
    if ps.len() == 0 {
        id
    } else {
        id + seq!['['] + join_props(ps) + seq![']']
    }
}

/// The mapping that a sequence of properties stands for; a later entry for a key
/// wins over an earlier one.
pub open spec fn props_map(ps: Seq<(Seq<char>, Seq<char>)>) -> Map<Seq<char>, Seq<char>>
    decreases ps.len(),
{
    if ps.len() == 0 {
        Map::empty()
    } else {
        props_map(ps.drop_last()).insert(ps.last().0, ps.last().1)
    }
}

proof fn lemma_first_index_none(t: Seq<char>, c: char)
    requires
        forall|i: int| 0 <= i < t.len() ==> t[i] != c,
    ensures
        first_index(t, c) == -1,
    decreases t.len(),
{
    if t.len() > 0 {
        lemma_first_index_none(t.drop_last(), c);
    }
}

proof fn lemma_first_index_at(t: Seq<char>, c: char, j: int)
    requires
        0 <= j < t.len(),
        t[j] == c,
        forall|i: int| 0 <= i < j ==> t[i] != c,
    ensures
        first_index(t, c) == j,
    decreases t.len(),
{
    if j == t.len() - 1 {
        lemma_first_index_none(t.drop_last(), c);
    } else {
        lemma_first_index_at(t.drop_last(), c, j);
    }
}

/// The texts that read back as written: no `[` in the identifier, no `=` or `,`
/// in a key, no `,` in a value.
pub open spec fn text_safe(id: Seq<char>, ps: Seq<(Seq<char>, Seq<char>)>) -> bool {
    &&& !id.contains('[')
    &&& forall|i: int|
        0 <= i < ps.len() ==> !(#[trigger] ps[i]).0.contains('=') && !ps[i].0.contains(',')
            && !ps[i].1.contains(',')
}

proof fn lemma_split_none(y: Seq<char>, c: char)
    requires
        !y.contains(c),
    ensures
        split(y, c) == seq![y],
    decreases y.len(),
{
    if y.len() > 0 {
        assert(!y.drop_last().contains(c)) by {
            if y.drop_last().contains(c) {
                let i = choose|i: int| 0 <= i < y.drop_last().len() && y.drop_last()[i] == c;
                assert(y[i] == c);
            }
        }
        lemma_split_none(y.drop_last(), c);
        assert(y.drop_last().push(y.last()) =~= y);
        assert(seq![y.drop_last()].update(0, y) =~= seq![y]);
    } else {
        assert(y =~= Seq::<char>::empty());
    }
}

proof fn lemma_split_append(x: Seq<char>, y: Seq<char>, c: char)
    requires
        !y.contains(c),
    ensures
        split(x + seq![c] + y, c) == split(x, c).push(y),
    decreases y.len(),
{
    let t = x + seq![c] + y;
    if y.len() == 0 {
        assert(t.drop_last() =~= x);
        assert(y =~= Seq::<char>::empty());
    } else {
        assert(t.drop_last() =~= x + seq![c] + y.drop_last());
        assert(!y.drop_last().contains(c)) by {
            if y.drop_last().contains(c) {
                let i = choose|i: int| 0 <= i < y.drop_last().len() && y.drop_last()[i] == c;
                assert(y[i] == c);
            }
        }
        assert(y[y.len() - 1] != c);
        lemma_split_append(x, y.drop_last(), c);
        let sp = split(x, c).push(y.drop_last());
        assert(y.drop_last().push(y.last()) =~= y);
        assert(sp.update(sp.len() - 1, sp.last().push(t.last())) =~= split(x, c).push(y));
    }
}

proof fn lemma_split_join(ps: Seq<(Seq<char>, Seq<char>)>)
    requires
        ps.len() > 0,
        forall|i: int|
            0 <= i < ps.len() ==> !(#[trigger] ps[i]).0.contains(',') && !ps[i].1.contains(','),
    ensures
        split(join_props(ps), ',') == ps.map_values(|p: (Seq<char>, Seq<char>)| entry_text(p)),
    decreases ps.len(),
{
    let last = ps.last();
    assert(!entry_text(last).contains(',')) by {
        let e = entry_text(last);
        if e.contains(',') {
            let i = choose|i: int| 0 <= i < e.len() && e[i] == ',';
            let k = ps.len() - 1;
            assert(ps[k] == last);
            if i < last.0.len() {
                assert(last.0[i] == ',');
            } else if i > last.0.len() {
                assert(last.1[i - last.0.len() - 1] == ',');
            }
        }
    }
    if ps.len() == 1 {
        lemma_split_none(entry_text(last), ',');
        assert(ps.map_values(|p: (Seq<char>, Seq<char>)| entry_text(p)) =~= seq![entry_text(last)]);
    } else {
        let init = ps.drop_last();
        assert forall|i: int| 0 <= i < init.len() implies !(#[trigger] init[i]).0.contains(',')
            && !init[i].1.contains(',') by {
            assert(init[i] == ps[i]);
        }
        lemma_split_join(init);
        lemma_split_append(join_props(init), entry_text(last), ',');
        assert(ps.map_values(|p: (Seq<char>, Seq<char>)| entry_text(p)) =~= init.map_values(
            |p: (Seq<char>, Seq<char>)| entry_text(p),
        ).push(entry_text(last)));
    }
}

proof fn lemma_parse_entries(ps: Seq<(Seq<char>, Seq<char>)>)
    requires
        forall|i: int| 0 <= i < ps.len() ==> !(#[trigger] ps[i]).0.contains('='),
    ensures
        parse_props(ps.map_values(|p: (Seq<char>, Seq<char>)| entry_text(p))) == Some(ps),
    decreases ps.len(),
{
    let es = ps.map_values(|p: (Seq<char>, Seq<char>)| entry_text(p));
    if ps.len() == 0 {
        assert(es =~= Seq::<Seq<char>>::empty());
    } else {
        let init = ps.drop_last();
        let last = ps.last();
        assert(ps[ps.len() - 1] == last);
        assert forall|i: int| 0 <= i < init.len() implies !(#[trigger] init[i]).0.contains('=') by {
            assert(init[i] == ps[i]);
        }
        lemma_parse_entries(init);
        assert(es.drop_last() =~= init.map_values(|p: (Seq<char>, Seq<char>)| entry_text(p)));
        let e = entry_text(last);
        assert(es.last() == e);
        let k = last.0.len() as int;
        assert forall|i: int| 0 <= i < k implies e[i] != '=' by {
            assert(e[i] == last.0[i]);
        }
        lemma_first_index_at(e, '=', k);
        assert(e.subrange(0, k) =~= last.0);
        assert(e.subrange(k + 1, e.len() as int) =~= last.1);
        assert(init.push(last) =~= ps);
    }
}

/// Parsing the canonical text of a block state gives back its identifier and its
/// properties, in order, whenever no key or value holds a separator and the
/// identifier holds no `[`.
pub proof fn lemma_parse_format(id: Seq<char>, ps: Seq<(Seq<char>, Seq<char>)>)
    requires
        text_safe(id, ps),
    ensures
        parse_text(format_text(id, ps)) == Ok::<
            (Seq<char>, Seq<(Seq<char>, Seq<char>)>),
            SchemError,
        >((id, ps)),
{
    let t = format_text(id, ps);
    assert forall|i: int| 0 <= i < id.len() implies id[i] != '[' by {
        if id[i] == '[' {
            assert(id.contains('['));
        }
    }
    if ps.len() == 0 {
        lemma_first_index_none(id, '[');
        assert(ps =~= Seq::<(Seq<char>, Seq<char>)>::empty());
    } else {
        let j = id.len() as int;
        assert forall|i: int| 0 <= i < j implies t[i] != '[' by {
            assert(t[i] == id[i]);
        }
        lemma_first_index_at(t, '[', j);
        assert(t.subrange(j + 1, t.len() as int) =~= join_props(ps) + seq![']']);
        assert(props_body(t, j) =~= join_props(ps));
        lemma_split_join(ps);
        lemma_parse_entries(ps);
        assert(t.subrange(0, j) =~= id);
    }
}

/// The characters of `s`, one by one.
fn chars_of(s: &str) -> (r: Vec<char>)
    ensures
        r@ == s@,
{
    let n = s.unicode_len();
    let mut r: Vec<char> = Vec::new();
    let mut i: usize = 0;
    while i < n
        invariant
            n == s@.len(),
            i <= n,
            r@ == s@.take(i as int),
        decreases n - i,
    {
        r.push(s.get_char(i));
        proof {
            assert(r@ =~= s@.take(i + 1));
        }
        i = i + 1;
    }
    proof {
        assert(s@.take(i as int) =~= s@);
    }
    r
}

/// Splits the entry `t[st..en]` at its first `=`.
fn parse_entry(s: &str, t: &Vec<char>, st: usize, en: usize) -> (r: Option<(String, String)>)
    requires
        t@ == s@,
        st <= en <= t@.len(),
    ensures
        match pair_of(t@.subrange(st as int, en as int)) {
            Some(p) => r matches Some(q) && q.0@ == p.0 && q.1@ == p.1,
            None => r is None,
        },
{
    let ghost e = t@.subrange(st as int, en as int);
    let mut q: usize = st;
    while q < en && t[q] != '='
        invariant
            st <= q <= en,
            en <= t@.len(),
            e == t@.subrange(st as int, en as int),
            forall|i: int| 0 <= i < q - st ==> e[i] != '=',
        decreases en - q,
    {
        q = q + 1;
    }
    if q == en {
        proof {
            lemma_first_index_none(e, '=');
        }
        None
    } else {
        proof {
            lemma_first_index_at(e, '=', q - st);
            assert(e.subrange(0, q - st) =~= s@.subrange(st as int, q as int));
            assert(e.subrange(q - st + 1, e.len() as int) =~= s@.subrange(q + 1, en as int));
        }
        let k = s.substring_char(st, q).to_owned();
        let v = s.substring_char(q + 1, en).to_owned();
        Some((k, v))
    }
}

/// The identifier of the default state of every position that holds no block.
pub const AIR: &'static str = "minecraft:air";

/// A block identifier and its named properties.
#[derive(Debug, Clone)]
pub struct BlockState {
    id: String,
    props: Vec<(String, String)>,
}

pub open spec fn pairs_view(ps: Seq<(String, String)>) -> Seq<(Seq<char>, Seq<char>)> {
    ps.map_values(|p: (String, String)| (p.0@, p.1@))
}

fn clone_pairs(ps: &Vec<(String, String)>) -> (r: Vec<(String, String)>)
    ensures
        pairs_view(r@) == pairs_view(ps@),
{
    let mut r: Vec<(String, String)> = Vec::new();
    let mut i: usize = 0;
    while i < ps.len()
        invariant
            i <= ps@.len(),
            pairs_view(r@) == pairs_view(ps@.take(i as int)),
        decreases ps@.len() - i,
    {
        let k = ps[i].0.clone();
        let v = ps[i].1.clone();
        let ghost pair = (k@, v@);
        assert(pair == (ps@[i as int].0@, ps@[i as int].1@));
        let ghost before = r@;
        r.push((k, v));
        proof {
            assert(pairs_view(r@) =~= pairs_view(before).push(pair));
            assert(ps@.take(i + 1) == ps@.take(i as int).push(ps@[i as int]));
            assert(pairs_view(r@) =~= pairs_view(ps@.take(i + 1)));
        }
        i = i + 1;
    }
    proof {
        assert(ps@.take(i as int) =~= ps@);
    }
    r
}

/// Clones a block state; the copy has the same identifier and properties.
pub fn copy_state(b: &BlockState) -> (r: BlockState)
    ensures
        r.spec_id() == b.spec_id(),
        r.spec_props() == b.spec_props(),
{
    BlockState { id: b.id.clone(), props: clone_pairs(&b.props) }
}

impl BlockState {
    pub closed spec fn spec_id(&self) -> Seq<char> {
        self.id@
    }

    /// The properties in the order they are written.
    pub closed spec fn spec_props(&self) -> Seq<(Seq<char>, Seq<char>)> {
        pairs_view(self.props@)
    }

    /// Two block states are the same value when identifier and mapping agree.
    pub open spec fn same_value(&self, other: &BlockState) -> bool {
        self.spec_id() == other.spec_id() && props_map(self.spec_props()) == props_map(
            other.spec_props(),
        )
    }

    pub open spec fn spec_text(&self) -> Seq<char> {
        format_text(self.spec_id(), self.spec_props())
    }

    /// The canonical text of the block state.
    pub fn to_text(&self) -> (r: String)
        ensures
            r@ == self.spec_text(),
    {
        let mut out = self.id.clone();
        if self.props.len() == 0 {
            return out;
        }
        let ghost ps = self.spec_props();
        proof {
            reveal_strlit("[");
            reveal_strlit("]");
            reveal_strlit(",");
            reveal_strlit("=");
        }
        assert("["@ =~= seq!['[']);
        out.append("[");
        let mut i: usize = 0;
        while i < self.props.len()
            invariant
                ps == self.spec_props(),
                ps.len() == self.props@.len(),
                i <= ps.len(),
                out@ == self.id@ + seq!['['] + join_props(ps.take(i as int)),
            decreases ps.len() - i,
        {
            let ghost before = out@;
            assert(ps[i as int] == (self.props@[i as int].0@, self.props@[i as int].1@));
            proof {
                reveal_strlit("=");
                reveal_strlit(",");
            }
            assert("="@ =~= seq!['=']);
            assert(","@ =~= seq![',']);
            if i > 0 {
                out.append(",");
            }
            out.append(self.props[i].0.as_str());
            out.append("=");
            out.append(self.props[i].1.as_str());
            proof {
                let t = ps.take(i + 1);
                assert(t.drop_last() =~= ps.take(i as int));
                assert(t.last() == ps[i as int]);
                if i == 0 {
                    assert(ps.take(0) =~= Seq::<(Seq<char>, Seq<char>)>::empty());
                    assert(out@ =~= before + entry_text(ps[i as int]));
                } else {
                    assert(out@ =~= before + seq![','] + entry_text(ps[i as int]));
                }
            }
            i = i + 1;
        }
        proof {
            reveal_strlit("]");
        }
        assert("]"@ =~= seq![']']);
        out.append("]");
        proof {
            assert(ps.take(i as int) =~= ps);
        }
        out
    }

    /// Reads a block state from its text: `id`, or `id[k=v,...]`.
    pub fn from_str(s: &str) -> (r: Result<BlockState, SchemError>)
        ensures
            match parse_text(s@) {
                Ok((id, ps)) => r matches Ok(b) && b.spec_id() == id && b.spec_props() == ps,
                Err(e) => r == Err::<BlockState, SchemError>(e),
            },
    {
        let t = chars_of(s);
        let n = t.len();
        let mut j: usize = 0;
        while j < n && t[j] != '['
            invariant
                n == t@.len(),
                j <= n,
                forall|i: int| 0 <= i < j ==> t@[i] != '[',
            decreases n - j,
        {
            j = j + 1;
        }
        if j == n {
            proof {
                lemma_first_index_none(t@, '[');
            }
            return Ok(BlockState::new(s));
        }
        proof {
            lemma_first_index_at(t@, '[', j as int);
        }
        let mut end: usize = n;
        if end > j + 1 && t[end - 1] == ']' {
            end = end - 1;
        }
        let ghost body = props_body(t@, j as int);
        assert(body =~= t@.subrange(j + 1, end as int));
        let mut props: Vec<(String, String)> = Vec::new();
        let mut failed = false;
        let mut st: usize = j + 1;
        let mut i: usize = j + 1;
        let ghost mut done: Seq<Seq<char>> = Seq::empty();
        proof {
            assert(t@.subrange(j + 1, i as int) =~= Seq::<char>::empty());
            assert(t@.subrange(st as int, i as int) =~= Seq::<char>::empty());
            assert(pairs_view(props@) =~= Seq::<(Seq<char>, Seq<char>)>::empty());
        }
        while i < end
            invariant
                t@ == s@,
                j + 1 <= st <= i <= end <= t@.len(),
                split(t@.subrange(j + 1, i as int), ',') == done.push(t@.subrange(st as int, i as int)),
                failed <==> parse_props(done) is None,
                !failed ==> parse_props(done) == Some(pairs_view(props@)),
            decreases end - i,
        {
            let ghost b = t@.subrange(j + 1, i as int);
            proof {
                assert(t@.subrange(j + 1, i + 1) =~= b.push(t@[i as int]));
                assert(t@.subrange(j + 1, i + 1).drop_last() =~= b);
            }
            if t[i] == ',' {
                let ghost cur = t@.subrange(st as int, i as int);
                let entry = parse_entry(s, &t, st, i);
                proof {
                    assert(done.push(cur).drop_last() =~= done);
                }
                match entry {
                    Some(p) => {
                        if !failed {
                            let ghost pv = (p.0@, p.1@);
                            let ghost before = props@;
                            props.push(p);
                            proof {
                                assert(pairs_view(props@) =~= pairs_view(before).push(pv));
                            }
                        }
                    },
                    None => {
                        failed = true;
                    },
                }
                proof {
                    done = done.push(cur);
                    assert(t@.subrange(i + 1, i + 1) =~= Seq::<char>::empty());
                }
                st = i + 1;
            } else {
                proof {
                    assert(t@.subrange(st as int, i + 1) =~= t@.subrange(st as int, i as int).push(t@[i as int]));
                    let sp = done.push(t@.subrange(st as int, i as int));
                    assert(sp.update(sp.len() - 1, sp.last().push(t@[i as int])) =~= done.push(t@.subrange(st as int, i + 1)));
                }
            }
            i = i + 1;
        }
        let ghost cur = t@.subrange(st as int, end as int);
        let entry = parse_entry(s, &t, st, end);
        proof {
            assert(done.push(cur).drop_last() =~= done);
        }
        match entry {
            Some(p) => {
                if failed {
                    return Err(SchemError::MalformedProperty);
                }
                let ghost pv = (p.0@, p.1@);
                let ghost before = props@;
                props.push(p);
                proof {
                    assert(pairs_view(props@) =~= pairs_view(before).push(pv));
                }
            },
            None => {
                return Err(SchemError::MalformedProperty);
            },
        }
        proof {
            assert(s@.subrange(0, j as int) =~= t@.subrange(0, j as int));
        }
        let id = s.substring_char(0, j).to_owned();
        Ok(BlockState { id, props })
    }

    /// Whether the identifier is `id`.
    pub fn has_id(&self, id: &str) -> (r: bool)
        ensures
            r == (self.spec_id() == id@),
    {
        let a = self.id.as_str();
        let n = a.unicode_len();
        if n != id.unicode_len() {
            return false;
        }
        let mut i: usize = 0;
        while i < n
            invariant
                n == a@.len() == id@.len(),
                a@ == self.id@,
                i <= n,
                forall|k: int| 0 <= k < i ==> a@[k] == id@[k],
            decreases n - i,
        {
            if a.get_char(i) != id.get_char(i) {
                return false;
            }
            i = i + 1;
        }
        proof {
            assert(a@ =~= id@);
        }
        true
    }

    pub fn id(&self) -> (r: &str)
        ensures
            r@ == self.spec_id(),
    {
        self.id.as_str()
    }

    pub fn props(&self) -> (r: &Vec<(String, String)>)
        ensures
            pairs_view(r@) == self.spec_props(),
    {
        &self.props
    }

    /// The same properties under another identifier.
    pub fn same_props_new_id(&self, id: &str) -> (r: BlockState)
        ensures
            r.spec_id() == id@,
            r.spec_props() == self.spec_props(),
    {
        BlockState { id: id.to_owned(), props: clone_pairs(&self.props) }
    }

    /// A block state without properties.
    pub fn new(name: &str) -> (r: BlockState)
        ensures
            r.spec_id() == name@,
            r.spec_props() == Seq::<(Seq<char>, Seq<char>)>::empty(),
    {
        let props: Vec<(String, String)> = Vec::new();
        proof {
            assert(pairs_view(props@) =~= Seq::<(Seq<char>, Seq<char>)>::empty());
        }
        BlockState { id: name.to_owned(), props }
    }

    pub fn air() -> (r: BlockState)
        ensures
            r.spec_id() == AIR@,
            r.spec_props() == Seq::<(Seq<char>, Seq<char>)>::empty(),
    {
        BlockState::new(AIR)
    }

    pub fn stone() -> (r: BlockState)
        ensures
            r.spec_id() == "minecraft:stone"@,
            r.spec_props() == Seq::<(Seq<char>, Seq<char>)>::empty(),
    {
        BlockState::new("minecraft:stone")
    }

    pub fn with_props(name: &str, props: Vec<(String, String)>) -> (r: BlockState)
        ensures
            r.spec_id() == name@,
            r.spec_props() == pairs_view(props@),
    {
        BlockState { id: name.to_owned(), props }
    }
}

} // verus!

//! The table of named sound events: one entry per line, a decimal id, a tab,
//! then the name. Lines that do not have that shape are ignored.
use vstd::prelude::*;
use crate::text::push_char;
use vstd::std_specs::iter::IteratorSpec;
use vstd::utf8::encode_utf8;

verus! {

/// The pieces of `s` between line feeds, in order (the last piece is what
/// follows the last line feed, possibly empty).
pub open spec fn pieces(s: Seq<char>) -> Seq<Seq<char>>
    decreases s.len(),
{
    if s.len() == 0 {
        seq![Seq::<char>::empty()]
    } else {
        let p = pieces(s.drop_last());
        if s.last() == '\n' {
            p.push(Seq::<char>::empty())
        } else {
            p.update(p.len() - 1, p.last().push(s.last()))
        }
    }
}

/// `l` without its trailing carriage returns.
pub open spec fn trim_cr(l: Seq<char>) -> Seq<char>
    decreases l.len(),
{
    if l.len() > 0 && l.last() == '\r' {
        trim_cr(l.drop_last())
    } else {
        l
    }
}

/// The index of the first tab in `l`.
pub open spec fn tab_at(l: Seq<char>) -> Option<nat>
    decreases l.len(),
{
    if l.len() == 0 {
        None
    } else if l[0] == '\t' {
        Some(0)
    } else {
        match tab_at(l.drop_first()) {
            Some(k) => Some(k + 1),
            None => None,
        }
    }
}

pub open spec fn is_digit(c: char) -> bool {
    '0' <= c && c <= '9'
}

/// The number written by the decimal digits `d`.
pub open spec fn digits_value(d: Seq<char>) -> nat
    decreases d.len(),
{
    if d.len() == 0 {
        0
    } else {
        digits_value(d.drop_last()) * 10 + ((d.last() as u32) - ('0' as u32)) as nat
    }
}

pub open spec fn all_digits(d: Seq<char>) -> bool {
    forall|i: int| 0 <= i < d.len() ==> is_digit(#[trigger] d[i])
}

/// An unsigned 32-bit decimal: an optional `+`, then at least one digit,
/// and a value that fits.
pub open spec fn parse_id(s: Seq<char>) -> Option<u32> {
    let d = if s.len() > 0 && s[0] == '+' { s.drop_first() } else { s };
    if d.len() == 0 || !all_digits(d) {
        None
    } else if digits_value(d) <= u32::MAX {
        Some(digits_value(d) as u32)
    } else {
        None
    }
}

/// The entry a line holds: its carriage returns trimmed, it is split at its
/// first tab into an id and a name.
pub open spec fn entry_of(line: Seq<char>) -> Option<(u32, Seq<char>)> {
    let l = trim_cr(line);
    if l.len() == 0 {
        None
    } else {
        match tab_at(l) {
            Some(k) => match parse_id(l.take(k as int)) {
                Some(id) => Some((id, l.skip(k + 1 as int))),
                None => None,
            },
            None => None,
        }
    }
}

/// The entries of the lines `ls`, in order.
pub open spec fn entries_of(ls: Seq<Seq<char>>) -> Seq<(u32, Seq<char>)>
    decreases ls.len(),
{
    if ls.len() == 0 {
        Seq::empty()
    } else {
        entries_of(ls.drop_last()) + match entry_of(ls.last()) {
            Some(e) => seq![e],
            None => Seq::empty(),
        }
    }
}

/// The entries of a table text, in the order of its lines.
pub open spec fn table_entries(text: Seq<char>) -> Seq<(u32, Seq<char>)> {
    entries_of(pieces(text))
}

/// Each id to its name; where an id occurs twice, the later line wins.
pub open spec fn id_map(es: Seq<(u32, Seq<char>)>) -> Map<u32, Seq<char>>
    decreases es.len(),
{
    if es.len() == 0 {
        Map::empty()
    } else {
        id_map(es.drop_last()).insert(es.last().0, es.last().1)
    }
}

/// Each name to its id; where a name occurs twice, the later line wins.
pub open spec fn name_map(es: Seq<(u32, Seq<char>)>) -> Map<Seq<char>, u32>
    decreases es.len(),
{
    if es.len() == 0 {
        Map::empty()
    } else {
        name_map(es.drop_last()).insert(es.last().1, es.last().0)
    }
}

/// The characters of `text`, in order.
pub(crate) fn chars_of(text: &str) -> (v: Vec<char>)
    ensures
        v@ == text@,
{
    let mut v: Vec<char> = Vec::new();
    for c in it: text.chars()
        invariant
            v@ == it.seq().take(it.index() as int),
    {
        v.push(c);
    }
    assert(v@ =~= text@);
    v
}

proof fn lemma_trim_cr(l: Seq<char>, e: int)
    requires
        0 <= e <= l.len(),
        e == 0 || l[e - 1] != '\r',
        forall|j: int| e <= j < l.len() ==> l[j] == '\r',
    ensures
        trim_cr(l) == l.take(e),
    decreases l.len() - e,
{
    if l.len() > e {
        assert(l.drop_last().take(e) =~= l.take(e));
        lemma_trim_cr(l.drop_last(), e);
    } else {
        assert(l.take(e) =~= l);
        if e > 0 {
            assert(l.last() == l[e - 1]);
        }
    }
}

proof fn lemma_tab_at(l: Seq<char>, k: int)
    requires
        0 <= k <= l.len(),
        forall|j: int| 0 <= j < k ==> l[j] != '\t',
    ensures
        k < l.len() && l[k] == '\t' ==> tab_at(l) == Some(k as nat),
        k == l.len() ==> tab_at(l) is None,
    decreases k,
{
    if k > 0 {
        lemma_tab_at(l.drop_first(), k - 1);
    }
}

proof fn lemma_digits_step(d: Seq<char>, i: int)
    requires
        0 <= i < d.len(),
    ensures
        digits_value(d.take(i + 1)) == digits_value(d.take(i)) * 10 + ((d[i] as u32) - ('0' as u32)) as nat,
{
    assert(d.take(i + 1).drop_last() =~= d.take(i));
}

/// The id written in `s[from..to]`, as `parse_id` reads it.
pub(crate) fn read_id(s: &Vec<char>, from: usize, to: usize) -> (r: Option<u32>)
    requires
        from <= to <= s@.len(),
    ensures
        r == parse_id(s@.subrange(from as int, to as int)),
{
    let ghost t = s@.subrange(from as int, to as int);
    let mut i = from;
    if i < to && s[i] == '+' {
        i = i + 1;
    }
    let ghost d = s@.subrange(i as int, to as int);
    assert(d =~= (if t.len() > 0 && t[0] == '+' { t.drop_first() } else { t }));
    if i == to {
        return None;
    }
    let start = i;
    let mut value: u64 = 0;
    let mut over = false;
    while i < to
        invariant
            start <= i <= to <= s@.len(),
            d == s@.subrange(start as int, to as int),
            t == s@.subrange(from as int, to as int),
            d == (if t.len() > 0 && t[0] == '+' { t.drop_first() } else { t }),
            d.len() > 0,
            forall|j: int| 0 <= j < i - start ==> is_digit(#[trigger] d[j]),
            !over ==> value == digits_value(d.take(i - start)) && value <= u32::MAX,
            over ==> digits_value(d.take(i - start)) > u32::MAX,
        decreases to - i,
    {
        let c = s[i];
        if !(c >= '0' && c <= '9') {
            assert(d[i - start] == c);
            assert(!is_digit(d[i - start]));
            assert(!all_digits(d));
            return None;
        }
        proof {
            lemma_digits_step(d, i - start);
        }
        let digit = (c as u32) - ('0' as u32);
        if !over {
            let next = value * 10 + digit as u64;
            if next > 0xffff_ffff {
                over = true;
            } else {
                value = next;
            }
        }
        i = i + 1;
    }
    assert(d.take(i - start) =~= d);
    assert(all_digits(d));
    if over {
        None
    } else {
        Some(value as u32)
    }
}

proof fn lemma_pieces_nonempty(s: Seq<char>)
    ensures
        pieces(s).len() >= 1,
    decreases s.len(),
{
    if s.len() > 0 {
        lemma_pieces_nonempty(s.drop_last());
    }
}

/// Which ids occur, and that each id's name is the name of one of its lines.
pub proof fn lemma_id_map_dom(es: Seq<(u32, Seq<char>)>)
    ensures
        id_map(es).dom().finite(),
        forall|x: u32| #[trigger] id_map(es).dom().contains(x)
            <==> exists|k: int| 0 <= k < es.len() && es[k].0 == x,
        forall|x: u32| #[trigger] id_map(es).dom().contains(x)
            ==> exists|k: int| 0 <= k < es.len() && es[k] == (x, id_map(es)[x]),
    decreases es.len(),
{
    if es.len() > 0 {
        let p = es.drop_last();
        lemma_id_map_dom(p);
        assert forall|x: u32| #[trigger] id_map(es).dom().contains(x)
            <==> exists|k: int| 0 <= k < es.len() && es[k].0 == x by {
            if id_map(es).dom().contains(x) && x != es.last().0 {
                assert(id_map(p).dom().contains(x));
                let k = choose|k: int| 0 <= k < p.len() && p[k].0 == x;
                assert(es[k] == p[k]);
            }
            if exists|k: int| 0 <= k < es.len() && es[k].0 == x {
                let k = choose|k: int| 0 <= k < es.len() && es[k].0 == x;
                if k < es.len() - 1 {
                    assert(p[k] == es[k]);
                }
            }
        }
        assert forall|x: u32| #[trigger] id_map(es).dom().contains(x)
            implies exists|k: int| 0 <= k < es.len() && es[k] == (x, id_map(es)[x]) by {
            if x == es.last().0 {
                assert(es[es.len() - 1] == (x, id_map(es)[x]));
            } else {
                let k = choose|k: int| 0 <= k < p.len() && p[k] == (x, id_map(p)[x]);
                assert(es[k] == p[k]);
            }
        }
    }
}

/// An id's name is that of its last line.
pub proof fn lemma_id_map_at(es: Seq<(u32, Seq<char>)>, j: int)
    requires
        0 <= j < es.len(),
        forall|k: int| j < k < es.len() ==> es[k].0 != es[j].0,
    ensures
        id_map(es).dom().contains(es[j].0),
        id_map(es)[es[j].0] == es[j].1,
    decreases es.len(),
{
    if j < es.len() - 1 {
        let p = es.drop_last();
        assert(p[j] == es[j]);
        lemma_id_map_at(p, j);
    }
}

/// Which names occur, and that each name's id is the id of one of its lines.
pub proof fn lemma_name_map_dom(es: Seq<(u32, Seq<char>)>)
    ensures
        forall|x: Seq<char>| #[trigger] name_map(es).dom().contains(x)
            <==> exists|k: int| 0 <= k < es.len() && es[k].1 == x,
        forall|x: Seq<char>| #[trigger] name_map(es).dom().contains(x)
            ==> exists|k: int| 0 <= k < es.len() && es[k] == (name_map(es)[x], x),
    decreases es.len(),
{
    if es.len() > 0 {
        let p = es.drop_last();
        lemma_name_map_dom(p);
        assert forall|x: Seq<char>| #[trigger] name_map(es).dom().contains(x)
            <==> exists|k: int| 0 <= k < es.len() && es[k].1 == x by {
            if name_map(es).dom().contains(x) && x != es.last().1 {
                assert(name_map(p).dom().contains(x));
                let k = choose|k: int| 0 <= k < p.len() && p[k].1 == x;
                assert(es[k] == p[k]);
            }
            if exists|k: int| 0 <= k < es.len() && es[k].1 == x {
                let k = choose|k: int| 0 <= k < es.len() && es[k].1 == x;
                if k < es.len() - 1 {
                    assert(p[k] == es[k]);
                    assert(name_map(p).dom().contains(x));
                }
            }
        }
        assert forall|x: Seq<char>| #[trigger] name_map(es).dom().contains(x)
            implies exists|k: int| 0 <= k < es.len() && es[k] == (name_map(es)[x], x) by {
            if x == es.last().1 {
                assert(es[es.len() - 1] == (name_map(es)[x], x));
            } else {
                let k = choose|k: int| 0 <= k < p.len() && p[k] == (name_map(p)[x], x);
                assert(es[k] == p[k]);
            }
        }
    }
}

/// A name's id is that of its last line.
pub proof fn lemma_name_map_at(es: Seq<(u32, Seq<char>)>, j: int)
    requires
        0 <= j < es.len(),
        forall|k: int| j < k < es.len() ==> es[k].1 != es[j].1,
    ensures
        name_map(es).dom().contains(es[j].1),
        name_map(es)[es[j].1] == es[j].0,
    decreases es.len(),
{
    if j < es.len() - 1 {
        let p = es.drop_last();
        assert(p[j] == es[j]);
        lemma_name_map_at(p, j);
    }
}

/// The parsed entries of a sound-event table, in the order of their lines.
pub struct SoundTable {
    ids: Vec<u32>,
    names: Vec<String>,
}

impl View for SoundTable {
    type V = Seq<(u32, Seq<char>)>;

    closed spec fn view(&self) -> Seq<(u32, Seq<char>)> {
        Seq::new(self.ids@.len(), |i: int| (self.ids@[i], self.names@[i]@))
    }
}

impl SoundTable {
    /// Every id has its name.
    pub closed spec fn wf(&self) -> bool {
        self.ids@.len() == self.names@.len()
    }

    /// Reads the entries of `text`: each line, its carriage returns trimmed,
    /// is a decimal id, a tab and a name; other lines are skipped.
    pub fn parse(text: &str) -> (t: SoundTable)
        ensures
            t.wf(),
            t@ == table_entries(text@),
    {
        let cs = chars_of(text);
        let mut t = SoundTable { ids: Vec::new(), names: Vec::new() };
        let mut start: usize = 0;
        let mut i: usize = 0;
        assert(cs@.take(0) =~= Seq::<char>::empty());
        assert(t@ =~= Seq::<(u32, Seq<char>)>::empty());
        assert(cs@.subrange(0, 0) =~= Seq::<char>::empty());
        while i < cs.len()
            invariant
                t.wf(),
                cs@ == text@,
                start <= i <= cs@.len(),
                pieces(cs@.take(i as int)).len() >= 1,
                pieces(cs@.take(i as int)).last() == cs@.subrange(start as int, i as int),
                t@ == entries_of(pieces(cs@.take(i as int)).drop_last()),
            decreases cs@.len() - i,
        {
            let ghost p = pieces(cs@.take(i as int));
            assert(cs@.take(i + 1).drop_last() =~= cs@.take(i as int));
            assert(cs@.take(i + 1).last() == cs@[i as int]);
            if cs[i] == '\n' {
                t.push_line(&cs, start, i);
                proof {
                    let q = pieces(cs@.take(i + 1));
                    assert(q == p.push(Seq::<char>::empty()));
                    assert(q.drop_last() =~= p);
                    assert(cs@.subrange(i + 1, i + 1) =~= Seq::<char>::empty());
                }
                start = i + 1;
            } else {
                proof {
                    let q = pieces(cs@.take(i + 1));
                    assert(q == p.update(p.len() - 1, p.last().push(cs@[i as int])));
                    assert(q.drop_last() =~= p.drop_last());
                    assert(cs@.subrange(start as int, i + 1) =~= cs@.subrange(start as int, i as int).push(cs@[i as int]));
                }
            }
            i = i + 1;
        }
        assert(cs@.take(i as int) =~= cs@);
        t.push_line(&cs, start, i);
        t
    }

    /// Appends the entry of the line `cs[from..to]`, if it holds one.
    fn push_line(&mut self, cs: &Vec<char>, from: usize, to: usize)
        requires
            old(self).wf(),
            from <= to <= cs@.len(),
        ensures
            final(self).wf(),
            final(self)@ == old(self)@ + match entry_of(cs@.subrange(from as int, to as int)) {
                Some(e) => seq![e],
                None => Seq::empty(),
            },
    {
        let ghost line = cs@.subrange(from as int, to as int);
        let mut e = to;
        while e > from && cs[e - 1] == '\r'
            invariant
                from <= e <= to <= cs@.len(),
                forall|j: int| e <= j < to ==> cs@[j] == '\r',
            decreases e - from,
        {
            e = e - 1;
        }
        proof {
            lemma_trim_cr(line, e - from);
            assert(line.take(e - from) =~= cs@.subrange(from as int, e as int));
        }
        let ghost l = cs@.subrange(from as int, e as int);
        if e == from {
            assert(self@ + Seq::empty() =~= self@);
            return;
        }
        let mut k = from;
        while k < e && cs[k] != '\t'
            invariant
                from <= k <= e <= cs@.len(),
                l == cs@.subrange(from as int, e as int),
                forall|j: int| 0 <= j < k - from ==> l[j] != '\t',
            decreases e - k,
        {
            k = k + 1;
        }
        proof {
            lemma_tab_at(l, k - from);
        }
        if k == e {
            assert(self@ + Seq::empty() =~= self@);
            return;
        }
        assert(l.take(k - from) =~= cs@.subrange(from as int, k as int));
        let id = match read_id(cs, from, k) {
            Some(id) => id,
            None => {
                assert(self@ + Seq::empty() =~= self@);
                return;
            },
        };
        let mut name = String::new();
        let mut j = k + 1;
        while j < e
            invariant
                k < j <= e <= cs@.len(),
                name@ == cs@.subrange(k + 1, j as int),
            decreases e - j,
        {
            push_char(&mut name, cs[j]);
            assert(cs@.subrange(k + 1, j + 1) =~= cs@.subrange(k + 1, j as int).push(cs@[j as int]));
            j = j + 1;
        }
        assert(l.skip(k - from + 1) =~= cs@.subrange(k + 1, e as int));
        self.ids.push(id);
        self.names.push(name);
        assert(self@ =~= old(self)@ + seq![(id, l.skip(k - from + 1))]);
    }
}

/// The name of the sound event `id`, if the table has one.
pub fn id_to_name(table: &SoundTable, id: u32) -> (r: Option<&str>)
    requires
        table.wf(),
    ensures
        match r {
            Some(name) => id_map(table@).dom().contains(id) && name@ == id_map(table@)[id],
            None => !id_map(table@).dom().contains(id),
        },
{
    let ghost es = table@;
    let mut j = table.ids.len();
    while j > 0
        invariant
            table.wf(),
            es == table@,
            j <= es.len(),
            forall|k: int| j <= k < es.len() ==> es[k].0 != id,
        decreases j,
    {
        if table.ids[j - 1] == id {
            proof {
                lemma_id_map_at(es, j - 1);
            }
            return Some(table.names[j - 1].as_str());
        }
        j = j - 1;
    }
    proof {
        lemma_id_map_dom(es);
    }
    None
}

/// The id of the sound event named `name`, if the table has one.
pub fn name_to_id(table: &SoundTable, name: &str) -> (r: Option<u32>)
    requires
        table.wf(),
    ensures
        match r {
            Some(id) => name_map(table@).dom().contains(name@) && id == name_map(table@)[name@],
            None => !name_map(table@).dom().contains(name@),
        },
{
    let ghost es = table@;
    let wanted = name.to_owned();
    let mut j = table.ids.len();
    while j > 0
        invariant
            table.wf(),
            es == table@,
            wanted@ == name@,
            j <= es.len(),
            forall|k: int| j <= k < es.len() ==> es[k].1 != name@,
        decreases j,
    {
        if table.names[j - 1] == wanted {
            proof {
                lemma_name_map_at(es, j - 1);
            }
            return Some(table.ids[j - 1]);
        }
        j = j - 1;
    }
    proof {
        lemma_name_map_dom(es);
    }
    None
}

/// The number of distinct ids in the table.
pub fn len(table: &SoundTable) -> (n: usize)
    requires
        table.wf(),
    ensures
        n == id_map(table@).dom().len(),
{
    let ghost es = table@;
    let mut n: usize = 0;
    let mut i: usize = 0;
    assert(es.take(0) =~= Seq::<(u32, Seq<char>)>::empty());
    while i < table.ids.len()
        invariant
            table.wf(),
            es == table@,
            i <= es.len(),
            n <= i,
            n == id_map(es.take(i as int)).dom().len(),
        decreases es.len() - i,
    {
        let id = table.ids[i];
        let mut seen = false;
        let mut k: usize = 0;
        while k < i
            invariant
                table.wf(),
                es == table@,
                i < es.len(),
                k <= i,
                id == es[i as int].0,
                seen <==> exists|m: int| 0 <= m < k && es[m].0 == id,
            decreases i - k,
        {
            assert(es[k as int].0 == table.ids@[k as int]);
            if table.ids[k] == id {
                seen = true;
            }
            k = k + 1;
        }
        proof {
            let p = es.take(i as int);
            let q = es.take(i + 1);
            assert(q.drop_last() =~= p);
            assert(q.last() == es[i as int]);
            lemma_id_map_dom(p);
            if seen {
                let m = choose|m: int| 0 <= m < i && es[m].0 == id;
                assert(p[m] == es[m]);
                assert(id_map(q).dom() =~= id_map(p).dom());
            } else {
                assert forall|m: int| 0 <= m < p.len() implies p[m].0 != id by {
                    assert(p[m] == es[m]);
                }
                assert(id_map(q).dom() =~= id_map(p).dom().insert(id));
            }
        }
        if !seen {
            n = n + 1;
        }
        i = i + 1;
    }
    assert(es.take(i as int) =~= es);
    n
}

/// Where no two lines share a name, the name of an id leads back to that id.
pub proof fn law_id_name_round_trip(es: Seq<(u32, Seq<char>)>, id: u32)
    requires
        forall|a: int, b: int| 0 <= a < b < es.len() ==> es[a].1 != es[b].1,
        id_map(es).dom().contains(id),
    ensures
        name_map(es).dom().contains(id_map(es)[id]),
        name_map(es)[id_map(es)[id]] == id,
{
    lemma_id_map_dom(es);
    let k = choose|k: int| 0 <= k < es.len() && es[k] == (id, id_map(es)[id]);
    assert forall|m: int| k < m < es.len() implies es[m].1 != es[k].1 by {}
    lemma_name_map_at(es, k);
}

/// Where no two lines share an id, the id of a name leads back to that name.
pub proof fn law_name_id_round_trip(es: Seq<(u32, Seq<char>)>, name: Seq<char>)
    requires
        forall|a: int, b: int| 0 <= a < b < es.len() ==> es[a].0 != es[b].0,
        name_map(es).dom().contains(name),
    ensures
        id_map(es).dom().contains(name_map(es)[name]),
        id_map(es)[name_map(es)[name]] == name,
{
    lemma_name_map_dom(es);
    let k = choose|k: int| 0 <= k < es.len() && es[k] == (name_map(es)[name], name);
    assert forall|m: int| k < m < es.len() implies es[m].0 != es[k].0 by {}
    lemma_id_map_at(es, k);
}

/// Each name, as the UTF-8 bytes a packet carries, to its id; where a name
/// occurs twice, the later line wins.
pub open spec fn bytes_map(es: Seq<(u32, Seq<char>)>) -> Map<Seq<u8>, u32>
    decreases es.len(),
{
    if es.len() == 0 {
        Map::empty()
    } else {
        bytes_map(es.drop_last()).insert(encode_utf8(es.last().1), es.last().0)
    }
}

/// Which encoded names occur.
pub proof fn lemma_bytes_map_dom(es: Seq<(u32, Seq<char>)>)
    ensures
        forall|x: Seq<u8>| #[trigger] bytes_map(es).dom().contains(x)
            <==> exists|k: int| 0 <= k < es.len() && encode_utf8(es[k].1) == x,
        forall|x: Seq<u8>| #[trigger] bytes_map(es).dom().contains(x)
            ==> exists|k: int| 0 <= k < es.len() && encode_utf8(es[k].1) == x && es[k].0 == bytes_map(es)[x],
    decreases es.len(),
{
    if es.len() > 0 {
        let p = es.drop_last();
        lemma_bytes_map_dom(p);
        assert forall|x: Seq<u8>| #[trigger] bytes_map(es).dom().contains(x)
            <==> exists|k: int| 0 <= k < es.len() && encode_utf8(es[k].1) == x by {
            if bytes_map(es).dom().contains(x) && x != encode_utf8(es.last().1) {
                assert(bytes_map(p).dom().contains(x));
                let k = choose|k: int| 0 <= k < p.len() && encode_utf8(p[k].1) == x;
                assert(es[k] == p[k]);
            }
            if exists|k: int| 0 <= k < es.len() && encode_utf8(es[k].1) == x {
                let k = choose|k: int| 0 <= k < es.len() && encode_utf8(es[k].1) == x;
                if k < es.len() - 1 {
                    assert(p[k] == es[k]);
                    assert(bytes_map(p).dom().contains(x));
                }
            }
        }
        assert forall|x: Seq<u8>| #[trigger] bytes_map(es).dom().contains(x)
            implies exists|k: int| 0 <= k < es.len() && encode_utf8(es[k].1) == x && es[k].0 == bytes_map(es)[x] by {
            if x == encode_utf8(es.last().1) {
                assert(encode_utf8(es[es.len() - 1].1) == x);
            } else {
                assert(bytes_map(p).dom().contains(x));
                let k = choose|k: int| 0 <= k < p.len() && encode_utf8(p[k].1) == x && p[k].0 == bytes_map(p)[x];
                assert(es[k] == p[k]);
            }
        }
    }
}

/// An encoded name's id is that of its last line.
pub proof fn lemma_bytes_map_at(es: Seq<(u32, Seq<char>)>, j: int)
    requires
        0 <= j < es.len(),
        forall|k: int| j < k < es.len() ==> encode_utf8(es[k].1) != encode_utf8(es[j].1),
    ensures
        bytes_map(es).dom().contains(encode_utf8(es[j].1)),
        bytes_map(es)[encode_utf8(es[j].1)] == es[j].0,
    decreases es.len(),
{
    if j < es.len() - 1 {
        let p = es.drop_last();
        assert(p[j] == es[j]);
        lemma_bytes_map_at(p, j);
    }
}

fn same_bytes(a: &[u8], b: &[u8]) -> (r: bool)
    ensures
        r == (a@ == b@),
{
    if a.len() != b.len() {
        return false;
    }
    let mut i: usize = 0;
    while i < a.len()
        invariant
            a@.len() == b@.len(),
            i <= a@.len(),
            forall|k: int| 0 <= k < i ==> a@[k] == b@[k],
        decreases a@.len() - i,
    {
        if a[i] != b[i] {
            return false;
        }
        i = i + 1;
    }
    assert(a@ =~= b@);
    true
}

/// The id of the sound event whose name is written as the UTF-8 bytes
/// `name`, if the table has one.
pub fn name_bytes_to_id(table: &SoundTable, name: &[u8]) -> (r: Option<u32>)
    requires
        table.wf(),
    ensures
        match r {
            Some(id) => bytes_map(table@).dom().contains(name@) && id == bytes_map(table@)[name@],
            None => !bytes_map(table@).dom().contains(name@),
        },
{
    let ghost es = table@;
    let mut j = table.ids.len();
    while j > 0
        invariant
            table.wf(),
            es == table@,
            j <= es.len(),
            forall|k: int| j <= k < es.len() ==> encode_utf8(es[k].1) != name@,
        decreases j,
    {
        let stored = table.names[j - 1].as_str().as_bytes();
        if same_bytes(stored, name) {
            proof {
                lemma_bytes_map_at(es, j - 1);
            }
            return Some(table.ids[j - 1]);
        }
        j = j - 1;
    }
    proof {
        lemma_bytes_map_dom(es);
    }
    None
}

} // verus!

//! Bencode: integers, byte strings, lists and dictionaries, decoded from and
//! encoded to raw bytes.
use vstd::prelude::*;

verus! {

broadcast use {vstd::std_specs::vec::axiom_vec_index_decreases, vstd::std_specs::vec::axiom_vec_decreases_to_view};

/// How deep lists and dictionaries may nest in decoded input.
pub const MAX_DEPTH: usize = 64;

/// Why decoding failed.
#[derive(Clone, Copy, Debug, PartialEq, Eq, Structural)]
pub enum DecodeError {
    /// A byte-string length is not a decimal number followed by `:`.
    MalformedLength,
    /// The text of an integer is not a signed 64-bit decimal number.
    MalformedInteger,
    /// The input ends inside a value.
    TruncatedInput,
    /// A dictionary key is not a byte string.
    InvalidKeyType,
    /// A value starts with a byte that begins no value.
    UnknownTag,
    /// Lists and dictionaries nest deeper than the limit.
    NestingTooDeep,
}

/// The mathematical form of a bencode value.
pub enum Bencode {
    Int(int),
    Bytes(Seq<u8>),
    List(Seq<Bencode>),
    Dict(Seq<(Seq<u8>, Bencode)>),
}

/// A bencode value. Dictionaries hold their entries in ascending key order,
/// each key once: the decoder builds them so, and the encoder writes entries
/// in the order held.
pub enum BencodeValue {
    Integer(i64),
    ByteString(Vec<u8>),
    List(Vec<BencodeValue>),
    Dictionary(Vec<(Vec<u8>, BencodeValue)>),
}

impl View for BencodeValue {
    type V = Bencode;

    open spec fn view(&self) -> Bencode
        decreases self,
    {
        match self {
            BencodeValue::Integer(i) => Bencode::Int(*i as int),
            BencodeValue::ByteString(b) => Bencode::Bytes(b@),
            BencodeValue::List(items) => Bencode::List(
                Seq::new(items.len() as nat, |i: int| if 0 <= i < items.len() { items[i].view() } else { Bencode::Int(0) }),
            ),
            BencodeValue::Dictionary(entries) => Bencode::Dict(
                Seq::new(entries.len() as nat, |i: int|
                    if 0 <= i < entries.len() { entry_view(entries[i]) } else { (Seq::empty(), Bencode::Int(0)) }),
            ),
        }
    }
}


/// Whether a byte is an ASCII decimal digit.
pub open spec fn is_digit(b: u8) -> bool {
    48 <= b <= 57
}

/// Minimal ASCII decimal text of a natural number.
pub open spec fn nat_text(n: nat) -> Seq<u8>
    decreases n,
{
    if n < 10 {
        seq![(48 + n) as u8]
    } else {
        nat_text(n / 10).push((48 + n % 10) as u8)
    }
}

/// Minimal ASCII decimal text of an integer, with a leading `-` when negative.
pub open spec fn int_text(i: int) -> Seq<u8> {
    if i < 0 {
        seq![45u8] + nat_text((-i) as nat)
    } else {
        nat_text(i as nat)
    }
}

/// Raw byte order of two keys: `a` sorts strictly before `b`.
pub open spec fn key_lt(a: Seq<u8>, b: Seq<u8>) -> bool
    decreases a.len(),
{
    if b.len() == 0 {
        false
    } else if a.len() == 0 {
        true
    } else if a[0] != b[0] {
        a[0] < b[0]
    } else {
        key_lt(a.drop_first(), b.drop_first())
    }
}

/// The encoding of a byte string: its length, `:`, then its bytes.
pub open spec fn encode_bytes(b: Seq<u8>) -> Seq<u8> {
    nat_text(b.len()) + seq![58u8] + b
}

/// Canonical encoding of a value.
pub open spec fn encode_spec(v: Bencode) -> Seq<u8>
    decreases v, 0nat,
{
    match v {
        Bencode::Int(i) => seq![105u8] + int_text(i) + seq![101u8],
        Bencode::Bytes(b) => encode_bytes(b),
        Bencode::List(items) => seq![108u8] + encode_items(items, items.len()) + seq![101u8],
        Bencode::Dict(entries) => seq![100u8] + encode_entries(entries, entries.len()) + seq![101u8],
    }
}

/// The encodings of the first `n` list items, one after another.
pub open spec fn encode_items(items: Seq<Bencode>, n: nat) -> Seq<u8>
    decreases items, n,
{
    if n == 0 || n > items.len() {
        Seq::empty()
    } else {
        encode_items(items, (n - 1) as nat) + encode_spec(items[n - 1])
    }
}

/// The encodings of the first `n` dictionary entries, each key followed by its value.
pub open spec fn encode_entries(entries: Seq<(Seq<u8>, Bencode)>, n: nat) -> Seq<u8>
    decreases entries, n,
{
    if n == 0 || n > entries.len() {
        Seq::empty()
    } else {
        encode_entries(entries, (n - 1) as nat) + encode_bytes(entries[n - 1].0)
            + encode_spec(entries[n - 1].1)
    }
}


/// The mathematical form of one dictionary entry.
pub open spec fn entry_view(e: (Vec<u8>, BencodeValue)) -> (Seq<u8>, Bencode)
    decreases e,
{
    (e.0@, e.1.view())
}

impl Bencode {
    /// Well-formed: integers fit in 64 bits, and every dictionary holds its
    /// keys in strictly ascending byte order (so each key once).
    pub open spec fn wf(self) -> bool
        decreases self,
    {
        match self {
            Bencode::Int(i) => i64::MIN <= i <= i64::MAX,
            Bencode::Bytes(_) => true,
            Bencode::List(items) => forall|k: int| 0 <= k < items.len() ==> (#[trigger] items[k]).wf(),
            Bencode::Dict(entries) => {
                &&& forall|k: int| 0 <= k < entries.len() ==> (#[trigger] entries[k]).1.wf()
                &&& forall|j: int, k: int|
                    0 <= j < k < entries.len() ==> key_lt(#[trigger] entries[j].0, #[trigger] entries[k].0)
            },
        }
    }

    /// Lists and dictionaries nest no deeper than `depth` levels.
    pub open spec fn within_depth(self, depth: nat) -> bool
        decreases self,
    {
        match self {
            Bencode::Int(_) => true,
            Bencode::Bytes(_) => true,
            Bencode::List(items) => depth > 0 && forall|k: int|
                0 <= k < items.len() ==> (#[trigger] items[k]).within_depth((depth - 1) as nat),
            Bencode::Dict(entries) => depth > 0 && forall|k: int|
                0 <= k < entries.len() ==> (#[trigger] entries[k]).1.within_depth((depth - 1) as nat),
        }
    }
}

/// Appends the decimal text of `n`.
pub(crate) fn push_nat(n: u64, out: &mut Vec<u8>)
    ensures
        final(out)@ == old(out)@ + nat_text(n as nat),
    decreases n,
{
    if n >= 10 {
        push_nat(n / 10, out);
    }
    out.push((48 + n % 10) as u8);
    assert(final(out)@ =~= old(out)@ + nat_text(n as nat));
}

/// Appends the decimal text of `i`.
fn push_int(i: i64, out: &mut Vec<u8>)
    ensures
        final(out)@ == old(out)@ + int_text(i as int),
{
    if i < 0 {
        out.push(45u8);
        let m: u64 = (-(i as i128)) as u64;
        push_nat(m, out);
    } else {
        push_nat(i as u64, out);
    }
    assert(final(out)@ =~= old(out)@ + int_text(i as int));
}

/// Appends the encoding of a byte string.
fn push_bytes(b: &[u8], out: &mut Vec<u8>)
    ensures
        final(out)@ == old(out)@ + encode_bytes(b@),
{
    push_nat(b.len() as u64, out);
    out.push(58u8);
    let mut k: usize = 0;
    let ghost start = out@;
    while k < b.len()
        invariant
            k <= b.len(),
            out@ == start + b@.subrange(0, k as int),
        decreases b.len() - k,
    {
        out.push(b[k]);
        k = k + 1;
        assert(out@ =~= start + b@.subrange(0, k as int));
    }
    assert(b@.subrange(0, b.len() as int) =~= b@);
    assert(final(out)@ =~= old(out)@ + encode_bytes(b@));
}

impl BencodeValue {
    /// Appends the encoding of this value to `out`. Entries are written in
    /// the order held: a well-formed value gets its canonical encoding.
    pub fn encode_into(&self, out: &mut Vec<u8>)
        ensures
            final(out)@ == old(out)@ + encode_spec(self@),
        decreases self@,
    {
        match self {
            BencodeValue::Integer(i) => {
                out.push(105u8);
                push_int(*i, out);
                out.push(101u8);
                assert(final(out)@ =~= old(out)@ + encode_spec(self@));
            },
            BencodeValue::ByteString(b) => {
                push_bytes(b.as_slice(), out);
            },
            BencodeValue::List(items) => {
                let ghost vs = self@->List_0;
                out.push(108u8);
                let ghost start = out@;
                let mut k: usize = 0;
                while k < items.len()
                    invariant
                        k <= items.len(),
                        self@ == Bencode::List(vs),
                        vs.len() == items.len(),
                        forall|j: int| 0 <= j < items.len() ==> vs[j] == (#[trigger] items[j])@,
                        out@ == start + encode_items(vs, k as nat),
                    decreases items.len() - k,
                {
                    proof {
                        assert(decreases_to!(self@ => self@->List_0));
                        assert(decreases_to!(vs => vs[k as int]));
                    }
                    items[k].encode_into(out);
                    k = k + 1;
                    assert(out@ =~= start + encode_items(vs, k as nat));
                }
                out.push(101u8);
                assert(final(out)@ =~= old(out)@ + encode_spec(self@));
            },
            BencodeValue::Dictionary(entries) => {
                let ghost es = self@->Dict_0;
                out.push(100u8);
                let ghost start = out@;
                let mut k: usize = 0;
                while k < entries.len()
                    invariant
                        k <= entries.len(),
                        self@ == Bencode::Dict(es),
                        es.len() == entries.len(),
                        forall|j: int| 0 <= j < entries.len() ==> es[j] == entry_view(#[trigger] entries[j]),
                        out@ == start + encode_entries(es, k as nat),
                    decreases entries.len() - k,
                {
                    proof {
                        assert(decreases_to!(self@ => self@->Dict_0));
                        assert(decreases_to!(es => es[k as int]));
                        assert(decreases_to!(es[k as int] => es[k as int].1));
                    }
                    push_bytes(entries[k].0.as_slice(), out);
                    entries[k].1.encode_into(out);
                    k = k + 1;
                    assert(out@ =~= start + encode_entries(es, k as nat));
                }
                out.push(101u8);
                assert(final(out)@ =~= old(out)@ + encode_spec(self@));
            },
        }
    }

    /// The encoding of this value.
    pub fn encode(&self) -> (r: Vec<u8>)
        ensures
            r@ == encode_spec(self@),
    {
        let mut out: Vec<u8> = Vec::new();
        self.encode_into(&mut out);
        assert(out@ =~= encode_spec(self@));
        out
    }
}

/// Where the run of ASCII digits that starts at `pos` ends.
pub open spec fn digit_run_end(s: Seq<u8>, pos: int) -> int
    decreases s.len() - pos,
{
    if 0 <= pos < s.len() && is_digit(s[pos]) {
        digit_run_end(s, pos + 1)
    } else {
        pos
    }
}

/// The number that a run of ASCII digits writes in decimal.
pub open spec fn digits_value(d: Seq<u8>) -> nat
    decreases d.len(),
{
    if d.len() == 0 {
        0
    } else {
        digits_value(d.drop_last()) * 10 + (d.last() - 48) as nat
    }
}

/// Every byte is an ASCII digit.
pub open spec fn all_digits(d: Seq<u8>) -> bool {
    forall|k: int| 0 <= k < d.len() ==> is_digit(#[trigger] d[k])
}

/// The first index at or after `pos` that holds `e`, or the length.
pub open spec fn find_end(s: Seq<u8>, pos: int) -> int
    decreases s.len() - pos,
{
    if 0 <= pos < s.len() && s[pos] != 101u8 {
        find_end(s, pos + 1)
    } else {
        pos
    }
}

/// The signed 64-bit integer that `t` writes in decimal, with an optional
/// leading `-`.
pub open spec fn int_of_text(t: Seq<u8>) -> Option<int> {
    if t.len() > 0 && t[0] == 45u8 {
        let d = t.drop_first();
        if d.len() > 0 && all_digits(d) && digits_value(d) <= 0x8000_0000_0000_0000 {
            Some(-(digits_value(d) as int))
        } else {
            None
        }
    } else if t.len() > 0 && all_digits(t) && digits_value(t) <= 0x7fff_ffff_ffff_ffff {
        Some(digits_value(t) as int)
    } else {
        None
    }
}

/// A byte string whose length starts at `pos`: the payload and where it ends.
pub open spec fn parse_bytes(s: Seq<u8>, pos: int) -> Result<(Seq<u8>, int), DecodeError> {
    let e = digit_run_end(s, pos);
    if e >= s.len() {
        Err(DecodeError::TruncatedInput)
    } else if e == pos || s[e] != 58u8 {
        Err(DecodeError::MalformedLength)
    } else if e + 1 + digits_value(s.subrange(pos, e)) > s.len() {
        Err(DecodeError::TruncatedInput)
    } else {
        let n = digits_value(s.subrange(pos, e));
        Ok((s.subrange(e + 1, e + 1 + n), e + 1 + n))
    }
}

/// An integer whose text starts at `pos`, after the `i`: its value and where
/// it ends.
pub open spec fn parse_int(s: Seq<u8>, pos: int) -> Result<(int, int), DecodeError> {
    let e = find_end(s, pos);
    if e >= s.len() {
        Err(DecodeError::TruncatedInput)
    } else {
        match int_of_text(s.subrange(pos, e)) {
            Some(i) => Ok((i, e + 1)),
            None => Err(DecodeError::MalformedInteger),
        }
    }
}

/// `acc` with `key` bound to `val`: in key order, replacing an equal key.
pub open spec fn dict_insert(acc: Seq<(Seq<u8>, Bencode)>, key: Seq<u8>, val: Bencode) -> Seq<
    (Seq<u8>, Bencode),
>
    decreases acc.len(),
{
    if acc.len() == 0 {
        seq![(key, val)]
    } else if key_lt(acc.last().0, key) {
        acc.push((key, val))
    } else if acc.last().0 == key {
        acc.update(acc.len() - 1, (key, val))
    } else {
        dict_insert(acc.drop_last(), key, val).push(acc.last())
    }
}

/// The value that starts at `pos`, with lists and dictionaries nested at
/// most `depth` deep, and where it ends.
pub open spec fn parse_value(s: Seq<u8>, pos: int, depth: nat) -> Result<(Bencode, int), DecodeError>
    decreases depth, s.len() - pos, 0nat,
{
    if pos < 0 || pos >= s.len() {
        Err(DecodeError::TruncatedInput)
    } else if is_digit(s[pos]) {
        match parse_bytes(s, pos) {
            Ok((b, e)) => Ok((Bencode::Bytes(b), e)),
            Err(x) => Err(x),
        }
    } else if s[pos] == 105u8 {
        match parse_int(s, pos + 1) {
            Ok((i, e)) => Ok((Bencode::Int(i), e)),
            Err(x) => Err(x),
        }
    } else if s[pos] == 108u8 || s[pos] == 100u8 {
        if depth == 0 {
            Err(DecodeError::NestingTooDeep)
        } else if s[pos] == 108u8 {
            parse_list(s, pos + 1, (depth - 1) as nat, Seq::empty())
        } else {
            parse_dict(s, pos + 1, (depth - 1) as nat, Seq::empty())
        }
    } else {
        Err(DecodeError::UnknownTag)
    }
}

/// The rest of a list from `pos`, after the items `acc`.
pub open spec fn parse_list(s: Seq<u8>, pos: int, depth: nat, acc: Seq<Bencode>) -> Result<
    (Bencode, int),
    DecodeError,
>
    decreases depth, s.len() - pos, 1nat,
{
    if pos < 0 || pos >= s.len() {
        Err(DecodeError::TruncatedInput)
    } else if s[pos] == 101u8 {
        Ok((Bencode::List(acc), pos + 1))
    } else {
        match parse_value(s, pos, depth) {
            Err(x) => Err(x),
            Ok((v, e)) => if e <= pos || e > s.len() {
                Err(DecodeError::TruncatedInput)
            } else {
                parse_list(s, e, depth, acc.push(v))
            },
        }
    }
}

/// The rest of a dictionary from `pos`, after the entries `acc`.
pub open spec fn parse_dict(
    s: Seq<u8>,
    pos: int,
    depth: nat,
    acc: Seq<(Seq<u8>, Bencode)>,
) -> Result<(Bencode, int), DecodeError>
    decreases depth, s.len() - pos, 1nat,
{
    if pos < 0 || pos >= s.len() {
        Err(DecodeError::TruncatedInput)
    } else if s[pos] == 101u8 {
        Ok((Bencode::Dict(acc), pos + 1))
    } else {
        match parse_value(s, pos, depth) {
            Err(x) => Err(x),
            Ok((k, ke)) => match k {
                Bencode::Bytes(key) => if ke <= pos || ke > s.len() {
                    Err(DecodeError::TruncatedInput)
                } else {
                    match parse_value(s, ke, depth) {
                        Err(x) => Err(x),
                        Ok((v, ve)) => if ve <= pos || ve > s.len() {
                            Err(DecodeError::TruncatedInput)
                        } else {
                            parse_dict(s, ve, depth, dict_insert(acc, key, v))
                        },
                    }
                },
                _ => Err(DecodeError::InvalidKeyType),
            },
        }
    }
}


/// `key_lt` is a strict total order.
proof fn lemma_key_order(a: Seq<u8>, b: Seq<u8>)
    ensures
        key_lt(a, b) ==> !key_lt(b, a) && a != b,
        !key_lt(a, b) && a != b ==> key_lt(b, a),
    decreases a.len(),
{
    if a.len() > 0 && b.len() > 0 && a[0] == b[0] {
        lemma_key_order(a.drop_first(), b.drop_first());
        if a.drop_first() == b.drop_first() {
            assert(a =~= seq![a[0]] + a.drop_first());
            assert(b =~= seq![b[0]] + b.drop_first());
        }
    } else if a.len() == 0 && b.len() == 0 {
        assert(a =~= b);
    }
}

/// Whether `a` sorts strictly before `b` in raw byte order.
pub fn key_less(a: &[u8], b: &[u8]) -> (r: bool)
    ensures
        r == key_lt(a@, b@),
{
    let mut k: usize = 0;
    assert(a@.skip(0) =~= a@);
    assert(b@.skip(0) =~= b@);
    while k < a.len() && k < b.len() && a[k] == b[k]
        invariant
            k <= a.len(),
            k <= b.len(),
            key_lt(a@, b@) == key_lt(a@.skip(k as int), b@.skip(k as int)),
        decreases a.len() - k,
    {
        assert(a@.skip(k as int).drop_first() =~= a@.skip(k + 1));
        assert(b@.skip(k as int).drop_first() =~= b@.skip(k + 1));
        k = k + 1;
    }
    if k == b.len() {
        false
    } else if k == a.len() {
        true
    } else {
        a[k] < b[k]
    }
}

/// Whether two byte sequences are equal.
pub(crate) fn same_bytes(a: &[u8], b: &[u8]) -> (r: bool)
    ensures
        r == (a@ == b@),
{
    if a.len() != b.len() {
        return false;
    }
    let mut k: usize = 0;
    while k < a.len()
        invariant
            k <= a.len(),
            a.len() == b.len(),
            a@.subrange(0, k as int) == b@.subrange(0, k as int),
        decreases a.len() - k,
    {
        if a[k] != b[k] {
            return false;
        }
        assert(a@.subrange(0, k + 1) =~= a@.subrange(0, k as int).push(a[k as int]));
        assert(b@.subrange(0, k + 1) =~= b@.subrange(0, k as int).push(b[k as int]));
        k = k + 1;
    }
    assert(a@ =~= a@.subrange(0, k as int));
    assert(b@ =~= b@.subrange(0, k as int));
    true
}

/// The mathematical form of a run of dictionary entries.
pub open spec fn entries_view(e: Seq<(Vec<u8>, BencodeValue)>) -> Seq<(Seq<u8>, Bencode)> {
    e.map_values(|x: (Vec<u8>, BencodeValue)| entry_view(x))
}

/// The mathematical form of a run of list items.
pub open spec fn items_view(e: Seq<BencodeValue>) -> Seq<Bencode> {
    e.map_values(|x: BencodeValue| x@)
}

proof fn lemma_list_view(items: Vec<BencodeValue>)
    ensures
        BencodeValue::List(items)@ == Bencode::List(items_view(items@)),
{
    assert(BencodeValue::List(items)@->List_0 =~= items_view(items@));
}

pub(crate) proof fn lemma_dict_view(entries: Vec<(Vec<u8>, BencodeValue)>)
    ensures
        BencodeValue::Dictionary(entries)@ == Bencode::Dict(entries_view(entries@)),
{
    assert(BencodeValue::Dictionary(entries)@->Dict_0 =~= entries_view(entries@));
}

/// Binds `key` to `val` in `entries`, which are in ascending key order.
fn insert_entry(entries: &mut Vec<(Vec<u8>, BencodeValue)>, key: Vec<u8>, val: BencodeValue)
    ensures
        entries_view(final(entries)@) == dict_insert(entries_view(old(entries)@), key@, val@),
{
    let ghost old_view = entries_view(entries@);
    let mut k: usize = entries.len();
    assert(old_view.take(k as int) =~= old_view);
    assert(dict_insert(old_view, key@, val@) =~= dict_insert(old_view, key@, val@) + old_view.skip(k as int));
    while k > 0 && key_less(key.as_slice(), entries[k - 1].0.as_slice())
        invariant
            k <= entries.len(),
            entries_view(entries@) == old_view,
            dict_insert(old_view, key@, val@) == dict_insert(old_view.take(k as int), key@, val@)
                + old_view.skip(k as int),
        decreases k,
    {
        let ghost t = old_view.take(k as int);
        proof {
            lemma_key_order(key@, t.last().0);
            assert(t.drop_last() =~= old_view.take(k - 1));
            assert(seq![t.last()] + old_view.skip(k as int) =~= old_view.skip(k - 1));
            assert(dict_insert(t, key@, val@) == dict_insert(old_view.take(k - 1), key@, val@).push(t.last()));
            assert(dict_insert(old_view.take(k - 1), key@, val@).push(t.last()) + old_view.skip(k as int)
                =~= dict_insert(old_view.take(k - 1), key@, val@) + old_view.skip(k - 1));
        }
        k = k - 1;
    }
    let ghost t = old_view.take(k as int);
    if k > 0 && same_bytes(entries[k - 1].0.as_slice(), key.as_slice()) {
        proof {
            lemma_key_order(t.last().0, key@);
        }
        entries[k - 1] = (key, val);
        assert(entries_view(entries@) =~= dict_insert(old_view, key@, val@));
    } else {
        proof {
            if k > 0 {
                lemma_key_order(key@, t.last().0);
            } else {
                assert(t =~= Seq::<(Seq<u8>, Bencode)>::empty());
            }
        }
        entries.insert(k, (key, val));
        assert(entries_view(entries@) =~= dict_insert(old_view, key@, val@));
    }
}


/// Copies `s[from..to]`.
pub(crate) fn copy_range(s: &[u8], from: usize, to: usize) -> (r: Vec<u8>)
    requires
        from <= to <= s.len(),
    ensures
        r@ == s@.subrange(from as int, to as int),
{
    let mut r: Vec<u8> = Vec::new();
    let mut k: usize = from;
    while k < to
        invariant
            from <= k <= to,
            to <= s.len(),
            r@ == s@.subrange(from as int, k as int),
        decreases to - k,
    {
        r.push(s[k]);
        k = k + 1;
        assert(r@ =~= s@.subrange(from as int, k as int));
    }
    r
}

/// `digits_value` of a run extended by one digit.
proof fn lemma_digits_push(s: Seq<u8>, from: int, to: int)
    requires
        0 <= from <= to < s.len(),
    ensures
        digits_value(s.subrange(from, to + 1)) == digits_value(s.subrange(from, to)) * 10 + (s[to]
            - 48) as nat,
{
    assert(s.subrange(from, to + 1).drop_last() =~= s.subrange(from, to));
}

/// Reads the run of digits at `pos`: where it ends, and its value, or
/// `limit + 1` where the value exceeds `limit`.
fn read_digits(s: &[u8], pos: usize, limit: u64) -> (r: (usize, u64))
    requires
        pos <= s.len(),
        limit < u64::MAX,
    ensures
        r.0 == digit_run_end(s@, pos as int),
        pos <= r.0 <= s.len(),
        r.0 < s.len() ==> !is_digit(s@[r.0 as int]),
        all_digits(s@.subrange(pos as int, r.0 as int)),
        digits_value(s@.subrange(pos as int, r.0 as int)) > limit ==> r.1 == limit + 1,
        digits_value(s@.subrange(pos as int, r.0 as int)) <= limit ==> r.1 == digits_value(
            s@.subrange(pos as int, r.0 as int),
        ),
{
    let mut k: usize = pos;
    let mut n: u64 = 0;
    assert(s@.subrange(pos as int, pos as int) =~= Seq::<u8>::empty());
    while k < s.len() && s[k] >= 48 && s[k] <= 57
        invariant
            pos <= k <= s.len(),
            limit < u64::MAX,
            digit_run_end(s@, pos as int) == digit_run_end(s@, k as int),
            all_digits(s@.subrange(pos as int, k as int)),
            digits_value(s@.subrange(pos as int, k as int)) > limit ==> n == limit + 1,
            digits_value(s@.subrange(pos as int, k as int)) <= limit ==> n == digits_value(
                s@.subrange(pos as int, k as int),
            ),
        decreases s.len() - k,
    {
        proof {
            lemma_digits_push(s@, pos as int, k as int);
            assert(s@.subrange(pos as int, k + 1) =~= s@.subrange(pos as int, k as int).push(s[k as int]));
        }
        let d: u64 = (s[k] - 48) as u64;
        if n <= limit {
            let m: u128 = n as u128 * 10 + d as u128;
            if m > limit as u128 {
                n = limit + 1;
            } else {
                n = m as u64;
            }
        }
        k = k + 1;
    }
    (k, n)
}

/// Decodes the byte string whose length starts at `pos`.
fn decode_bytes(s: &[u8], pos: usize) -> (r: Result<(Vec<u8>, usize), DecodeError>)
    requires
        pos < s.len(),
    ensures
        match r {
            Ok((b, e)) => parse_bytes(s@, pos as int) == Ok::<(Seq<u8>, int), DecodeError>((b@, e as int)),
            Err(x) => parse_bytes(s@, pos as int) == Err::<(Seq<u8>, int), DecodeError>(x),
        },
        r matches Ok((_, e)) ==> pos < e <= s.len(),
{
    let (e, n) = read_digits(s, pos, (s.len() - pos - 1) as u64);
    if e >= s.len() {
        return Err(DecodeError::TruncatedInput);
    }
    if e == pos || s[e] != 58u8 {
        return Err(DecodeError::MalformedLength);
    }
    if n > (s.len() - e - 1) as u64 {
        return Err(DecodeError::TruncatedInput);
    }
    let end: usize = e + 1 + n as usize;
    Ok((copy_range(s, e + 1, end), end))
}

/// Parses `s[from..to]` as a signed 64-bit decimal integer.
fn int_from_text(s: &[u8], from: usize, to: usize) -> (r: Option<i64>)
    requires
        from <= to < s.len(),
        s@[to as int] == 101u8,
    ensures
        match r {
            Some(i) => int_of_text(s@.subrange(from as int, to as int)) == Some(i as int),
            None => int_of_text(s@.subrange(from as int, to as int)) is None,
        },
{
    let ghost t = s@.subrange(from as int, to as int);
    let negative = from < to && s[from] == 45u8;
    let start: usize = if negative { from + 1 } else { from };
    if start == to {
        return None;
    }
    let (e, n) = read_digits(s, start, 0x8000_0000_0000_0000u64);
    let ghost d = s@.subrange(start as int, e as int);
    proof {
        if e > to {
            assert(d[to - start] == s@[to as int]);
        }
    }
    if e < to {
        proof {
            if negative {
                assert(t.drop_first()[e - start] == s@[e as int]);
            } else {
                assert(t[e - start] == s@[e as int]);
            }
        }
        return None;
    }
    proof {
        if negative {
            assert(t.drop_first() =~= s@.subrange(start as int, to as int));
        } else {
            assert(t =~= s@.subrange(start as int, to as int));
        }
    }
    if negative {
        if n <= 0x8000_0000_0000_0000u64 {
            Some((0i128 - n as i128) as i64)
        } else {
            None
        }
    } else {
        if n <= 0x7fff_ffff_ffff_ffffu64 {
            Some(n as i64)
        } else {
            None
        }
    }
}

/// Decodes the integer whose text starts at `pos`, after the `i`.
fn decode_int(s: &[u8], pos: usize) -> (r: Result<(i64, usize), DecodeError>)
    requires
        pos <= s.len(),
    ensures
        match r {
            Ok((i, e)) => parse_int(s@, pos as int) == Ok::<(int, int), DecodeError>((i as int, e as int)),
            Err(x) => parse_int(s@, pos as int) == Err::<(int, int), DecodeError>(x),
        },
        r matches Ok((_, e)) ==> pos < e <= s.len(),
{
    let mut k: usize = pos;
    while k < s.len() && s[k] != 101u8
        invariant
            pos <= k <= s.len(),
            find_end(s@, pos as int) == find_end(s@, k as int),
        decreases s.len() - k,
    {
        k = k + 1;
    }
    if k >= s.len() {
        return Err(DecodeError::TruncatedInput);
    }
    match int_from_text(s, pos, k) {
        Some(i) => Ok((i, k + 1)),
        None => Err(DecodeError::MalformedInteger),
    }
}


/// The mathematical form of a decoding result.
pub open spec fn decoded_view(r: Result<(BencodeValue, usize), DecodeError>) -> Result<(Bencode, int), DecodeError> {
    match r {
        Ok((v, e)) => Ok((v@, e as int)),
        Err(x) => Err(x),
    }
}

/// Decodes the value that starts at `pos`, nesting at most `depth` deep.
fn decode_at(s: &[u8], pos: usize, depth: usize) -> (r: Result<(BencodeValue, usize), DecodeError>)
    requires
        pos <= s.len(),
    ensures
        decoded_view(r) == parse_value(s@, pos as int, depth as nat),
        r matches Ok((_, e)) ==> pos < e <= s.len(),
    decreases depth, 1nat,
{
    if pos >= s.len() {
        return Err(DecodeError::TruncatedInput);
    }
    let tag = s[pos];
    if tag >= 48 && tag <= 57 {
        match decode_bytes(s, pos) {
            Ok((b, e)) => Ok((BencodeValue::ByteString(b), e)),
            Err(x) => Err(x),
        }
    } else if tag == 105u8 {
        match decode_int(s, pos + 1) {
            Ok((i, e)) => Ok((BencodeValue::Integer(i), e)),
            Err(x) => Err(x),
        }
    } else if tag == 108u8 || tag == 100u8 {
        if depth == 0 {
            return Err(DecodeError::NestingTooDeep);
        }
        if tag == 108u8 {
            decode_list(s, pos + 1, depth - 1)
        } else {
            decode_dict(s, pos + 1, depth - 1)
        }
    } else {
        Err(DecodeError::UnknownTag)
    }
}

/// Decodes list items from `pos` up to and past the closing `e`.
fn decode_list(s: &[u8], pos: usize, depth: usize) -> (r: Result<(BencodeValue, usize), DecodeError>)
    requires
        0 < pos <= s.len(),
    ensures
        decoded_view(r) == parse_list(s@, pos as int, depth as nat, Seq::empty()),
        r matches Ok((_, e)) ==> pos < e <= s.len(),
    decreases depth + 1, 0nat,
{
    let mut items: Vec<BencodeValue> = Vec::new();
    let mut p: usize = pos;
    assert(items_view(items@) =~= Seq::<Bencode>::empty());
    loop
        invariant
            pos <= p <= s.len(),
            parse_list(s@, pos as int, depth as nat, Seq::empty()) == parse_list(
                s@,
                p as int,
                depth as nat,
                items_view(items@),
            ),
        decreases s.len() - p,
    {
        if p >= s.len() {
            return Err(DecodeError::TruncatedInput);
        }
        if s[p] == 101u8 {
            proof {
                lemma_list_view(items);
            }
            return Ok((BencodeValue::List(items), p + 1));
        }
        match decode_at(s, p, depth) {
            Err(x) => {
                return Err(x);
            },
            Ok((v, e)) => {
                let ghost before = items_view(items@);
                items.push(v);
                assert(items_view(items@) =~= before.push(v@));
                p = e;
            },
        }
    }
}

/// Decodes dictionary entries from `pos` up to and past the closing `e`.
fn decode_dict(s: &[u8], pos: usize, depth: usize) -> (r: Result<(BencodeValue, usize), DecodeError>)
    requires
        0 < pos <= s.len(),
    ensures
        decoded_view(r) == parse_dict(s@, pos as int, depth as nat, Seq::empty()),
        r matches Ok((_, e)) ==> pos < e <= s.len(),
    decreases depth + 1, 0nat,
{
    let mut entries: Vec<(Vec<u8>, BencodeValue)> = Vec::new();
    let mut p: usize = pos;
    assert(entries_view(entries@) =~= Seq::<(Seq<u8>, Bencode)>::empty());
    loop
        invariant
            pos <= p <= s.len(),
            parse_dict(s@, pos as int, depth as nat, Seq::empty()) == parse_dict(
                s@,
                p as int,
                depth as nat,
                entries_view(entries@),
            ),
        decreases s.len() - p,
    {
        if p >= s.len() {
            return Err(DecodeError::TruncatedInput);
        }
        if s[p] == 101u8 {
            proof {
                lemma_dict_view(entries);
            }
            return Ok((BencodeValue::Dictionary(entries), p + 1));
        }
        match decode_at(s, p, depth) {
            Err(x) => {
                return Err(x);
            },
            Ok((BencodeValue::ByteString(key), ke)) => {
                match decode_at(s, ke, depth) {
                    Err(x) => {
                        return Err(x);
                    },
                    Ok((v, ve)) => {
                        insert_entry(&mut entries, key, v);
                        p = ve;
                    },
                }
            },
            Ok(_) => {
                return Err(DecodeError::InvalidKeyType);
            },
        }
    }
}

/// Decodes the one value that starts at `pos`, and says where it ends.
/// With no input left at `pos` there is no value: `Ok(None)`.
pub fn decode(bytes: &[u8], pos: usize) -> (r: Result<Option<(BencodeValue, usize)>, DecodeError>)
    requires
        pos <= bytes.len(),
    ensures
        pos == bytes.len() ==> r == Ok::<Option<(BencodeValue, usize)>, DecodeError>(None),
        pos < bytes.len() ==> match r {
            Ok(Some((v, e))) => parse_value(bytes@, pos as int, MAX_DEPTH as nat) == Ok::<
                (Bencode, int),
                DecodeError,
            >((v@, e as int)),
            Ok(None) => false,
            Err(x) => parse_value(bytes@, pos as int, MAX_DEPTH as nat) == Err::<
                (Bencode, int),
                DecodeError,
            >(x),
        },
        r matches Ok(Some((_, e))) ==> pos < e <= bytes.len(),
        r matches Ok(Some((v, _))) ==> v@.wf() && v@.within_depth(MAX_DEPTH as nat),
{
    if pos == bytes.len() {
        return Ok(None);
    }
    proof {
        lemma_parse_value_wf(bytes@, pos as int, MAX_DEPTH as nat);
    }
    match decode_at(bytes, pos, MAX_DEPTH) {
        Ok((v, e)) => Ok(Some((v, e))),
        Err(x) => Err(x),
    }
}


/// `x` stands in `s` from `pos` on.
pub open spec fn occurs_at(s: Seq<u8>, pos: int, x: Seq<u8>) -> bool {
    0 <= pos && pos + x.len() <= s.len() && s.subrange(pos, pos + x.len()) == x
}

proof fn lemma_occurs_split(s: Seq<u8>, pos: int, a: Seq<u8>, b: Seq<u8>)
    requires
        occurs_at(s, pos, a + b),
    ensures
        occurs_at(s, pos, a),
        occurs_at(s, pos + a.len(), b),
{
    let w = s.subrange(pos, pos + a.len() + b.len());
    assert(w == a + b);
    assert(s.subrange(pos, pos + a.len()) =~= w.subrange(0, a.len() as int));
    assert(w.subrange(0, a.len() as int) =~= a);
    assert(s.subrange(pos + a.len(), pos + a.len() + b.len()) =~= w.subrange(
        a.len() as int,
        w.len() as int,
    ));
    assert(w.subrange(a.len() as int, w.len() as int) =~= b);
}

proof fn lemma_nat_text(n: nat)
    ensures
        nat_text(n).len() > 0,
        all_digits(nat_text(n)),
        digits_value(nat_text(n)) == n,
    decreases n,
{
    if n < 10 {
        assert(nat_text(n).drop_last() =~= Seq::<u8>::empty());
        assert(digits_value(Seq::<u8>::empty()) == 0);
    } else {
        lemma_nat_text(n / 10);
        assert(nat_text(n).drop_last() =~= nat_text(n / 10));
        let t = nat_text(n);
        assert forall|k: int| 0 <= k < t.len() implies is_digit(#[trigger] t[k]) by {
            if k < t.len() - 1 {
                assert(t[k] == nat_text(n / 10)[k]);
            }
        }
    }
}

proof fn lemma_digit_run(s: Seq<u8>, pos: int, e: int)
    requires
        0 <= pos <= e <= s.len(),
        forall|k: int| pos <= k < e ==> is_digit(#[trigger] s[k]),
        e < s.len() ==> !is_digit(s[e]),
    ensures
        digit_run_end(s, pos) == e,
    decreases e - pos,
{
    if pos < e {
        lemma_digit_run(s, pos + 1, e);
    }
}

proof fn lemma_find_end(s: Seq<u8>, pos: int, e: int)
    requires
        0 <= pos <= e < s.len(),
        forall|k: int| pos <= k < e ==> #[trigger] s[k] != 101u8,
        s[e] == 101u8,
    ensures
        find_end(s, pos) == e,
    decreases e - pos,
{
    if pos < e {
        lemma_find_end(s, pos + 1, e);
    }
}

/// The text of a 64-bit integer reads back as that integer.
proof fn lemma_int_text(i: int)
    requires
        i64::MIN <= i <= i64::MAX,
    ensures
        int_of_text(int_text(i)) == Some(i),
        forall|k: int| 0 <= k < int_text(i).len() ==> #[trigger] int_text(i)[k] != 101u8,
{
    if i < 0 {
        lemma_nat_text((-i) as nat);
        let t = int_text(i);
        assert(t.drop_first() =~= nat_text((-i) as nat));
        assert forall|k: int| 0 <= k < t.len() implies #[trigger] t[k] != 101u8 by {
            if k > 0 {
                assert(t[k] == nat_text((-i) as nat)[k - 1]);
            }
        }
    } else {
        lemma_nat_text(i as nat);
        let t = int_text(i);
        assert(is_digit(t[0]));
        assert forall|k: int| 0 <= k < t.len() implies #[trigger] t[k] != 101u8 by {
            assert(is_digit(t[k]));
        }
    }
}

/// A byte string's encoding decodes to it.
proof fn lemma_parse_bytes_encoded(b: Seq<u8>, s: Seq<u8>, pos: int)
    requires
        occurs_at(s, pos, encode_bytes(b)),
    ensures
        parse_bytes(s, pos) == Ok::<(Seq<u8>, int), DecodeError>((b, pos + encode_bytes(b).len())),
        is_digit(s[pos]),
{
    let t = nat_text(b.len());
    lemma_nat_text(b.len());
    lemma_occurs_split(s, pos, t + seq![58u8], b);
    lemma_occurs_split(s, pos, t, seq![58u8]);
    let e = pos + t.len();
    assert forall|k: int| pos <= k < e implies is_digit(#[trigger] s[k]) by {
        assert(s[k] == s.subrange(pos, e)[k - pos]);
    }
    assert(s[pos] == s.subrange(pos, e)[0]);
    assert(s[e] == s.subrange(e, e + 1)[0]);
    lemma_digit_run(s, pos, e);
}

/// The first byte of an encoding is never the terminator `e`.
proof fn lemma_first_byte(v: Bencode)
    ensures
        encode_spec(v).len() > 0,
        encode_spec(v)[0] != 101u8,
{
    match v {
        Bencode::Bytes(b) => {
            lemma_nat_text(b.len());
            assert(encode_spec(v)[0] == nat_text(b.len())[0]);
        },
        _ => {},
    }
}

proof fn lemma_items_prefix(items: Seq<Bencode>, k: nat, n: nat, s: Seq<u8>, start: int)
    requires
        k <= n <= items.len(),
        occurs_at(s, start, encode_items(items, n)),
    ensures
        occurs_at(s, start, encode_items(items, k)),
    decreases n,
{
    if k < n {
        lemma_occurs_split(s, start, encode_items(items, (n - 1) as nat), encode_spec(items[n - 1]));
        lemma_items_prefix(items, k, (n - 1) as nat, s, start);
    }
}

proof fn lemma_entries_prefix(entries: Seq<(Seq<u8>, Bencode)>, k: nat, n: nat, s: Seq<u8>, start: int)
    requires
        k <= n <= entries.len(),
        occurs_at(s, start, encode_entries(entries, n)),
    ensures
        occurs_at(s, start, encode_entries(entries, k)),
    decreases n,
{
    if k < n {
        let e = entries[n - 1];
        lemma_occurs_split(
            s,
            start,
            encode_entries(entries, (n - 1) as nat) + encode_bytes(e.0),
            encode_spec(e.1),
        );
        lemma_occurs_split(s, start, encode_entries(entries, (n - 1) as nat), encode_bytes(e.0));
        lemma_entries_prefix(entries, k, (n - 1) as nat, s, start);
    }
}

/// The encoding of a well-formed value, within the depth limit, decodes
/// back to it and ends right after it.
proof fn lemma_parse_encoded(v: Bencode, s: Seq<u8>, pos: int, depth: nat)
    requires
        v.wf(),
        v.within_depth(depth),
        occurs_at(s, pos, encode_spec(v)),
    ensures
        parse_value(s, pos, depth) == Ok::<(Bencode, int), DecodeError>((v, pos + encode_spec(v).len())),
    decreases v, 0nat,
{
    match v {
        Bencode::Int(i) => {
            let t = int_text(i);
            lemma_int_text(i);
            lemma_occurs_split(s, pos, seq![105u8] + t, seq![101u8]);
            lemma_occurs_split(s, pos, seq![105u8], t);
            assert(s[pos] == s.subrange(pos, pos + 1)[0]);
            let e = pos + 1 + t.len();
            assert(s[e] == s.subrange(e, e + 1)[0]);
            assert forall|k: int| pos + 1 <= k < e implies #[trigger] s[k] != 101u8 by {
                assert(s[k] == s.subrange(pos + 1, e)[k - pos - 1]);
            }
            lemma_find_end(s, pos + 1, e);
        },
        Bencode::Bytes(b) => {
            lemma_parse_bytes_encoded(b, s, pos);
        },
        Bencode::List(items) => {
            let body = encode_items(items, items.len());
            assert(encode_spec(v) =~= seq![108u8] + (body + seq![101u8]));
            lemma_occurs_split(s, pos, seq![108u8], body + seq![101u8]);
            assert(s[pos] == s.subrange(pos, pos + 1)[0]);
            assert(decreases_to!(v => v->List_0));
            lemma_parse_items(items, s, pos + 1, 0, (depth - 1) as nat);
            assert(items.take(0) =~= Seq::<Bencode>::empty());
        },
        Bencode::Dict(entries) => {
            let body = encode_entries(entries, entries.len());
            assert(encode_spec(v) =~= seq![100u8] + (body + seq![101u8]));
            lemma_occurs_split(s, pos, seq![100u8], body + seq![101u8]);
            assert(s[pos] == s.subrange(pos, pos + 1)[0]);
            assert(decreases_to!(v => v->Dict_0));
            lemma_parse_entries(entries, s, pos + 1, 0, (depth - 1) as nat);
            assert(entries.take(0) =~= Seq::<(Seq<u8>, Bencode)>::empty());
        },
    }
}

proof fn lemma_parse_items(items: Seq<Bencode>, s: Seq<u8>, start: int, k: nat, depth: nat)
    requires
        k <= items.len(),
        forall|j: int| 0 <= j < items.len() ==> (#[trigger] items[j]).wf(),
        forall|j: int| 0 <= j < items.len() ==> (#[trigger] items[j]).within_depth(depth),
        occurs_at(s, start, encode_items(items, items.len()) + seq![101u8]),
    ensures
        parse_list(s, start + encode_items(items, k).len(), depth, items.take(k as int)) == Ok::<
            (Bencode, int),
            DecodeError,
        >((Bencode::List(items), start + encode_items(items, items.len()).len() + 1)),
    decreases items, items.len() - k,
{
    let n = items.len();
    lemma_occurs_split(s, start, encode_items(items, n), seq![101u8]);
    let p = start + encode_items(items, k).len();
    if k == n {
        assert(s[p] == s.subrange(p, p + 1)[0]);
        assert(items.take(k as int) =~= items);
    } else {
        lemma_items_prefix(items, k + 1, n, s, start);
        lemma_occurs_split(s, start, encode_items(items, k), encode_spec(items[k as int]));
        assert(decreases_to!(items => items[k as int]));
        lemma_parse_encoded(items[k as int], s, p, depth);
        lemma_first_byte(items[k as int]);
        assert(s[p] == s.subrange(p, p + encode_spec(items[k as int]).len())[0]);
        assert(items.take(k as int).push(items[k as int]) =~= items.take((k + 1) as int));
        lemma_parse_items(items, s, start, k + 1, depth);
    }
}

proof fn lemma_parse_entries(
    entries: Seq<(Seq<u8>, Bencode)>,
    s: Seq<u8>,
    start: int,
    k: nat,
    depth: nat,
)
    requires
        k <= entries.len(),
        forall|j: int| 0 <= j < entries.len() ==> (#[trigger] entries[j]).1.wf(),
        forall|j: int| 0 <= j < entries.len() ==> (#[trigger] entries[j]).1.within_depth(depth),
        forall|i: int, j: int|
            0 <= i < j < entries.len() ==> key_lt(#[trigger] entries[i].0, #[trigger] entries[j].0),
        occurs_at(s, start, encode_entries(entries, entries.len()) + seq![101u8]),
    ensures
        parse_dict(s, start + encode_entries(entries, k).len(), depth, entries.take(k as int))
            == Ok::<(Bencode, int), DecodeError>(
            (Bencode::Dict(entries), start + encode_entries(entries, entries.len()).len() + 1),
        ),
    decreases entries, entries.len() - k,
{
    let n = entries.len();
    lemma_occurs_split(s, start, encode_entries(entries, n), seq![101u8]);
    let p = start + encode_entries(entries, k).len();
    if k == n {
        assert(s[p] == s.subrange(p, p + 1)[0]);
        assert(entries.take(k as int) =~= entries);
    } else {
        let e = entries[k as int];
        lemma_entries_prefix(entries, k + 1, n, s, start);
        lemma_occurs_split(s, start, encode_entries(entries, k) + encode_bytes(e.0), encode_spec(e.1));
        lemma_occurs_split(s, start, encode_entries(entries, k), encode_bytes(e.0));
        lemma_parse_bytes_encoded(e.0, s, p);
        lemma_nat_text(e.0.len());
        assert(s[p] == s.subrange(p, p + encode_bytes(e.0).len())[0]);
        assert(encode_bytes(e.0)[0] == nat_text(e.0.len())[0]);
        let ke = p + encode_bytes(e.0).len();
        assert(decreases_to!(entries => entries[k as int]));
        assert(decreases_to!(entries[k as int] => entries[k as int].1));
        lemma_parse_encoded(e.1, s, ke, depth);
        let acc = entries.take(k as int);
        if k > 0 {
            assert(acc.last() == entries[k - 1]);
            assert(key_lt(entries[k - 1].0, entries[k as int].0));
        }
        assert(dict_insert(acc, e.0, e.1) =~= entries.take((k + 1) as int));
        let ve = ke + encode_spec(e.1).len();
        assert(encode_entries(entries, k + 1) == encode_entries(entries, k) + encode_bytes(e.0) + encode_spec(e.1));
        assert(ve == start + encode_entries(entries, k + 1).len());
        assert(s[p] != 101u8);
        assert(parse_value(s, p, depth) == Ok::<(Bencode, int), DecodeError>((Bencode::Bytes(e.0), ke)));
        assert(parse_value(s, ke, depth) == Ok::<(Bencode, int), DecodeError>((e.1, ve)));
        lemma_parse_entries(entries, s, start, k + 1, depth);
    }
}

/// Round trip: the canonical encoding of a well-formed value that nests
/// within the depth limit decodes back to that value, and decoding stops
/// right after it, whatever follows.
pub proof fn lemma_round_trip(v: Bencode, rest: Seq<u8>)
    requires
        v.wf(),
        v.within_depth(MAX_DEPTH as nat),
    ensures
        parse_value(encode_spec(v) + rest, 0, MAX_DEPTH as nat) == Ok::<(Bencode, int), DecodeError>(
            (v, encode_spec(v).len() as int),
        ),
{
    let s = encode_spec(v) + rest;
    assert(s.subrange(0, encode_spec(v).len() as int) =~= encode_spec(v));
    lemma_parse_encoded(v, s, 0, MAX_DEPTH as nat);
}


proof fn lemma_key_lt_trans(a: Seq<u8>, b: Seq<u8>, c: Seq<u8>)
    requires
        key_lt(a, b),
        key_lt(b, c),
    ensures
        key_lt(a, c),
    decreases a.len(),
{
    if a.len() > 0 && b.len() > 0 && c.len() > 0 && a[0] == b[0] && b[0] == c[0] {
        lemma_key_lt_trans(a.drop_first(), b.drop_first(), c.drop_first());
    }
}

/// Dictionary entries in strictly ascending key order.
pub open spec fn sorted_keys(e: Seq<(Seq<u8>, Bencode)>) -> bool {
    forall|i: int, j: int| 0 <= i < j < e.len() ==> key_lt(#[trigger] e[i].0, #[trigger] e[j].0)
}

/// Every value of the entries is well-formed and nests within `depth`.
pub open spec fn values_fit(e: Seq<(Seq<u8>, Bencode)>, depth: nat) -> bool {
    forall|i: int| 0 <= i < e.len() ==> (#[trigger] e[i]).1.wf() && e[i].1.within_depth(depth)
}

proof fn lemma_dict_insert(acc: Seq<(Seq<u8>, Bencode)>, key: Seq<u8>, val: Bencode, depth: nat)
    requires
        sorted_keys(acc),
        values_fit(acc, depth),
        val.wf(),
        val.within_depth(depth),
    ensures
        sorted_keys(dict_insert(acc, key, val)),
        values_fit(dict_insert(acc, key, val), depth),
        forall|i: int|
            0 <= i < dict_insert(acc, key, val).len() ==> (#[trigger] dict_insert(acc, key, val)[i]).0
                == key || exists|j: int| 0 <= j < acc.len() && acc[j].0 == dict_insert(acc, key, val)[i].0,
    decreases acc.len(),
{
    let r = dict_insert(acc, key, val);
    if acc.len() == 0 {
    } else if key_lt(acc.last().0, key) {
        assert forall|i: int, j: int| 0 <= i < j < r.len() implies key_lt(#[trigger] r[i].0, #[trigger] r[j].0) by {
            if j == acc.len() && i < acc.len() - 1 {
                lemma_key_lt_trans(acc[i].0, acc.last().0, key);
            }
        }
        assert forall|i: int| 0 <= i < r.len() implies (#[trigger] r[i]).0 == key || exists|j: int|
            0 <= j < acc.len() && acc[j].0 == r[i].0 by {
            if i < acc.len() {
                assert(acc[i].0 == r[i].0);
            }
        }
    } else if acc.last().0 == key {
        assert forall|i: int| 0 <= i < r.len() implies (#[trigger] r[i]).0 == key || exists|j: int|
            0 <= j < acc.len() && acc[j].0 == r[i].0 by {
            assert(acc[i].0 == r[i].0);
        }
    } else {
        let front = acc.drop_last();
        let last = acc.last();
        lemma_key_order(last.0, key);
        lemma_dict_insert(front, key, val, depth);
        let r0 = dict_insert(front, key, val);
        assert forall|i: int, j: int| 0 <= i < j < r.len() implies key_lt(#[trigger] r[i].0, #[trigger] r[j].0) by {
            if j == r.len() - 1 {
                assert(r[i] == r0[i]);
                if r0[i].0 != key {
                    let m = choose|m: int| 0 <= m < front.len() && front[m].0 == r0[i].0;
                    assert(acc[m] == front[m]);
                }
            } else {
                assert(r[i] == r0[i] && r[j] == r0[j]);
            }
        }
        assert forall|i: int| 0 <= i < r.len() implies (#[trigger] r[i]).0 == key || exists|j: int|
            0 <= j < acc.len() && acc[j].0 == r[i].0 by {
            if i == r.len() - 1 {
                assert(acc[acc.len() - 1].0 == r[i].0);
            } else {
                assert(r[i] == r0[i]);
                if r0[i].0 != key {
                    let m = choose|m: int| 0 <= m < front.len() && front[m].0 == r0[i].0;
                    assert(acc[m] == front[m]);
                }
            }
        }
        assert forall|i: int| 0 <= i < r.len() implies (#[trigger] r[i]).1.wf() && r[i].1.within_depth(depth) by {
            if i < r.len() - 1 {
                assert(r[i] == r0[i]);
            }
        }
    }
}

proof fn lemma_parse_value_wf(s: Seq<u8>, pos: int, depth: nat)
    ensures
        parse_value(s, pos, depth) matches Ok((v, _)) ==> v.wf() && v.within_depth(depth),
    decreases depth, s.len() - pos, 0nat,
{
    if 0 <= pos < s.len() && !is_digit(s[pos]) && s[pos] != 105u8 && depth > 0 {
        if s[pos] == 108u8 {
            lemma_parse_list_wf(s, pos + 1, (depth - 1) as nat, Seq::empty());
        } else if s[pos] == 100u8 {
            lemma_parse_dict_wf(s, pos + 1, (depth - 1) as nat, Seq::empty());
        }
    }
}

proof fn lemma_parse_list_wf(s: Seq<u8>, pos: int, depth: nat, acc: Seq<Bencode>)
    requires
        forall|i: int| 0 <= i < acc.len() ==> (#[trigger] acc[i]).wf() && acc[i].within_depth(depth),
    ensures
        parse_list(s, pos, depth, acc) matches Ok((v, _)) ==> v.wf() && v.within_depth(depth + 1),
    decreases depth, s.len() - pos, 1nat,
{
    if 0 <= pos < s.len() && s[pos] != 101u8 {
        lemma_parse_value_wf(s, pos, depth);
        if let Ok((v, e)) = parse_value(s, pos, depth) {
            if pos < e <= s.len() {
                let next = acc.push(v);
                assert forall|i: int| 0 <= i < next.len() implies (#[trigger] next[i]).wf()
                    && next[i].within_depth(depth) by {
                    if i < acc.len() {
                        assert(next[i] == acc[i]);
                    }
                }
                lemma_parse_list_wf(s, e, depth, next);
            }
        }
    } else if 0 <= pos < s.len() {
        assert((depth + 1 - 1) as nat == depth);
    }
}

proof fn lemma_parse_dict_wf(s: Seq<u8>, pos: int, depth: nat, acc: Seq<(Seq<u8>, Bencode)>)
    requires
        sorted_keys(acc),
        values_fit(acc, depth),
    ensures
        parse_dict(s, pos, depth, acc) matches Ok((v, _)) ==> v.wf() && v.within_depth(depth + 1),
    decreases depth, s.len() - pos, 1nat,
{
    if 0 <= pos < s.len() && s[pos] != 101u8 {
        if let Ok((Bencode::Bytes(key), ke)) = parse_value(s, pos, depth) {
            if pos < ke <= s.len() {
                lemma_parse_value_wf(s, ke, depth);
                if let Ok((v, ve)) = parse_value(s, ke, depth) {
                    if pos < ve <= s.len() {
                        lemma_dict_insert(acc, key, v, depth);
                        lemma_parse_dict_wf(s, ve, depth, dict_insert(acc, key, v));
                    }
                }
            }
        }
    } else if 0 <= pos < s.len() {
        assert((depth + 1 - 1) as nat == depth);
    }
}

} // verus!

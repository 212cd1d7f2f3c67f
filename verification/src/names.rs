use vstd::prelude::*;
use vstd::utf8::{decode_utf8, encode_utf8, valid_utf8};
use crate::errors::DnsCodecError;

verus! {

/// How many compression pointers one name may chase before parsing fails.
pub const MAX_POINTER_DEPTH: u32 = 128;

/// Splits a byte sequence at every occurrence of `sep`; the result always
/// holds at least one (possibly empty) part.
pub open spec fn spec_split(s: Seq<u8>, sep: u8) -> Seq<Seq<u8>>
    decreases s.len(),
{
    if s.len() == 0 {
        seq![Seq::<u8>::empty()]
    } else if s[0] == sep {
        seq![Seq::<u8>::empty()] + spec_split(s.drop_first(), sep)
    } else {
        let rest = spec_split(s.drop_first(), sep);
        seq![seq![s[0]] + rest[0]] + rest.drop_first()
    }
}

/// Joins parts with `sep` between each neighbouring pair.
pub open spec fn spec_join(parts: Seq<Seq<u8>>, sep: u8) -> Seq<u8>
    decreases parts.len(),
{
    if parts.len() == 0 {
        Seq::<u8>::empty()
    } else if parts.len() == 1 {
        parts[0]
    } else {
        parts[0] + seq![sep] + spec_join(parts.drop_first(), sep)
    }
}

pub proof fn lemma_split_len(s: Seq<u8>, sep: u8)
    ensures
        spec_split(s, sep).len() >= 1,
    decreases s.len(),
{
    if s.len() == 0 {
    } else {
        lemma_split_len(s.drop_first(), sep);
    }
}

/// Joining what a split produced gives back the original bytes.
pub proof fn lemma_join_split(s: Seq<u8>, sep: u8)
    ensures
        spec_join(spec_split(s, sep), sep) == s,
    decreases s.len(),
{
    reveal_with_fuel(spec_split, 3);
    reveal_with_fuel(spec_join, 3);
    if s.len() == 0 {
        assert(spec_join(spec_split(s, sep), sep) =~= s);
    } else if s[0] == sep {
        lemma_join_split(s.drop_first(), sep);
        lemma_split_len(s.drop_first(), sep);
        let parts = spec_split(s, sep);
        assert(parts.drop_first() =~= spec_split(s.drop_first(), sep));
        assert(parts.len() >= 2);
        assert(spec_join(parts, sep) =~= s);
    } else {
        lemma_join_split(s.drop_first(), sep);
        lemma_split_len(s.drop_first(), sep);
        let rest = spec_split(s.drop_first(), sep);
        let parts = spec_split(s, sep);
        assert(parts[0] == seq![s[0]] + rest[0]);
        assert(parts.drop_first() =~= rest.drop_first());
        if rest.len() == 1 {
            assert(parts.len() == 1);
            assert(spec_join(rest, sep) == rest[0]);
            assert(spec_join(parts, sep) =~= s);
        } else {
            assert(spec_join(parts, sep) == parts[0] + seq![sep] + spec_join(parts.drop_first(), sep));
            assert(spec_join(rest, sep) == rest[0] + seq![sep] + spec_join(rest.drop_first(), sep));
            assert(spec_join(parts, sep) =~= seq![s[0]] + spec_join(rest, sep));
            assert(s =~= seq![s[0]] + s.drop_first());
            assert(spec_join(parts, sep) =~= s);
        }
    }
}

/// Appending a part to a non-empty part list extends the join by a separator
/// and the new part.
pub proof fn lemma_join_push(parts: Seq<Seq<u8>>, p: Seq<u8>, sep: u8)
    requires
        parts.len() >= 1,
    ensures
        spec_join(parts.push(p), sep) == spec_join(parts, sep) + seq![sep] + p,
    decreases parts.len(),
{
    reveal_with_fuel(spec_join, 3);
    if parts.len() == 1 {
        let pushed = parts.push(p);
        assert(pushed.drop_first() =~= seq![p]);
        assert(spec_join(pushed, sep) =~= parts[0] + seq![sep] + p);
        assert(spec_join(parts, sep) + seq![sep] + p =~= parts[0] + seq![sep] + p);
    } else {
        lemma_join_push(parts.drop_first(), p, sep);
        let pushed = parts.push(p);
        assert(pushed.drop_first() =~= parts.drop_first().push(p));
        assert(spec_join(pushed, sep) =~= spec_join(parts, sep) + seq![sep] + p);
    }
}

/// The parts of the split, with the empty ones dropped.
pub open spec fn nonempty_labels(parts: Seq<Seq<u8>>) -> Seq<Seq<u8>>
    decreases parts.len(),
{
    if parts.len() == 0 {
        Seq::<Seq<u8>>::empty()
    } else if parts[0].len() == 0 {
        nonempty_labels(parts.drop_first())
    } else {
        seq![parts[0]] + nonempty_labels(parts.drop_first())
    }
}

pub proof fn lemma_nonempty_labels_id(parts: Seq<Seq<u8>>)
    requires
        forall|i: int| 0 <= i < parts.len() ==> parts[i].len() > 0,
    ensures
        nonempty_labels(parts) == parts,
    decreases parts.len(),
{
    if parts.len() == 0 {
        assert(nonempty_labels(parts) =~= parts);
    } else {
        lemma_nonempty_labels_id(parts.drop_first());
        assert(nonempty_labels(parts) =~= parts);
    }
}

/// A label fits the wire format when its length fits the 6-bit length byte.
pub open spec fn label_fits(l: Seq<u8>) -> bool {
    l.len() <= 63
}

pub open spec fn labels_fit(parts: Seq<Seq<u8>>) -> bool {
    forall|i: int| 0 <= i < parts.len() ==> label_fits(#[trigger] parts[i])
}

/// The first label that does not fit the wire format: the one an encoder
/// walking the labels in order trips over.
pub open spec fn spec_first_oversize_label(parts: Seq<Seq<u8>>) -> Seq<u8>
    decreases parts.len(),
{
    if parts.len() == 0 {
        Seq::<u8>::empty()
    } else if parts[0].len() > 63 {
        parts[0]
    } else {
        spec_first_oversize_label(parts.drop_first())
    }
}

/// The label at the first offending index is the first oversize label.
pub proof fn lemma_first_oversize_label(parts: Seq<Seq<u8>>, i: int)
    requires
        0 <= i < parts.len(),
        parts[i].len() > 63,
        forall|j: int| 0 <= j < i ==> (#[trigger] parts[j]).len() <= 63,
    ensures
        spec_first_oversize_label(parts) == parts[i],
    decreases i,
{
    if i == 0 {
    } else {
        assert(parts[0].len() <= 63);
        assert(parts.drop_first()[i - 1] == parts[i]);
        assert(forall|j: int| 0 <= j < i - 1 ==> (#[trigger] parts.drop_first()[j]).len() <= 63)
            by {
            assert(forall|j: int| 0 <= j < i - 1 ==> parts.drop_first()[j] == #[trigger] parts[j
                + 1]);
        }
        lemma_first_oversize_label(parts.drop_first(), i - 1);
    }
}

/// Wire form of a label list: a length byte then the label's bytes for each
/// non-empty label; the terminating zero byte is not included here.
pub open spec fn spec_encode_labels(parts: Seq<Seq<u8>>) -> Seq<u8>
    decreases parts.len(),
{
    if parts.len() == 0 {
        Seq::<u8>::empty()
    } else if parts[0].len() == 0 {
        spec_encode_labels(parts.drop_first())
    } else {
        seq![(parts[0].len() % 256) as u8] + parts[0] + spec_encode_labels(parts.drop_first())
    }
}

pub proof fn lemma_encode_labels_push(parts: Seq<Seq<u8>>, p: Seq<u8>)
    ensures
        spec_encode_labels(parts.push(p)) == spec_encode_labels(parts) + (if p.len() == 0 {
            Seq::<u8>::empty()
        } else {
            seq![(p.len() % 256) as u8] + p
        }),
    decreases parts.len(),
{
    reveal_with_fuel(spec_encode_labels, 3);
    let tail = if p.len() == 0 { Seq::<u8>::empty() } else { seq![(p.len() % 256) as u8] + p };
    if parts.len() == 0 {
        let pushed = parts.push(p);
        assert(pushed.drop_first() =~= Seq::<Seq<u8>>::empty());
        if p.len() == 0 {
            assert(spec_encode_labels(pushed) =~= spec_encode_labels(parts) + tail);
        } else {
            assert(pushed[0] == p);
            assert(spec_encode_labels(pushed) =~= spec_encode_labels(parts) + tail);
        }
    } else {
        lemma_encode_labels_push(parts.drop_first(), p);
        let pushed = parts.push(p);
        assert(pushed.drop_first() =~= parts.drop_first().push(p));
        assert(pushed[0] == parts[0]);
        assert(spec_encode_labels(pushed) =~= spec_encode_labels(parts) + tail);
    }
}

/// The byte-level labels of a dotted name: its UTF-8 bytes split at every dot.
pub open spec fn name_labels(name: Seq<char>) -> Seq<Seq<u8>> {
    spec_split(encode_utf8(name), 46)
}

/// Every label of the name fits in 63 bytes.
pub open spec fn name_encodable(name: Seq<char>) -> bool {
    labels_fit(name_labels(name))
}

/// Wire form of a whole name: the labels, then the terminating zero byte.
pub open spec fn spec_encode_name(name: Seq<char>) -> Seq<u8> {
    spec_encode_labels(name_labels(name)) + seq![0u8]
}

/// UTF-8 encoding distributes over concatenation.
pub proof fn lemma_encode_utf8_concat(a: Seq<char>, b: Seq<char>)
    ensures
        encode_utf8(a + b) == encode_utf8(a) + encode_utf8(b),
    decreases a.len(),
{
    if a.len() == 0 {
        assert(a + b =~= b);
        assert(encode_utf8(a) =~= Seq::<u8>::empty());
        assert(encode_utf8(a) + encode_utf8(b) =~= encode_utf8(b));
    } else {
        lemma_encode_utf8_concat(a.drop_first(), b);
        assert((a + b).len() > 0);
        assert((a + b)[0] == a[0]);
        assert((a + b).drop_first() =~= a.drop_first() + b);
        assert(encode_utf8(a + b) =~= encode_utf8(a) + encode_utf8(b));
    }
}

/// Appending the separator appends one empty part to the split.
pub proof fn lemma_split_push_sep(x: Seq<u8>, sep: u8)
    ensures
        spec_split(x.push(sep), sep) == spec_split(x, sep).push(Seq::<u8>::empty()),
    decreases x.len(),
{
    reveal_with_fuel(spec_split, 3);
    if x.len() == 0 {
        assert(x.push(sep)[0] == sep);
        assert(x.push(sep).drop_first() =~= x);
        assert(spec_split(x.push(sep), sep) =~= spec_split(x, sep).push(Seq::<u8>::empty()));
    } else {
        lemma_split_push_sep(x.drop_first(), sep);
        lemma_split_len(x.drop_first(), sep);
        let pushed = x.push(sep);
        assert(pushed[0] == x[0]);
        assert(pushed.drop_first() =~= x.drop_first().push(sep));
        if x[0] == sep {
            assert(spec_split(pushed, sep) =~= spec_split(x, sep).push(Seq::<u8>::empty()));
        } else {
            let r = spec_split(x.drop_first(), sep);
            let rp = spec_split(x.drop_first().push(sep), sep);
            assert(rp == r.push(Seq::<u8>::empty()));
            assert(rp[0] == r[0]);
            assert(rp.drop_first() =~= r.drop_first().push(Seq::<u8>::empty()));
            assert(spec_split(pushed, sep) =~= spec_split(x, sep).push(Seq::<u8>::empty()));
        }
    }
}

/// A trailing dot does not change a name's wire form: the empty label it
/// makes is skipped, and it neither makes an encodable name unencodable nor
/// the other way round.
pub proof fn lemma_trailing_dot_encoding(name: Seq<char>)
    ensures
        spec_encode_name(name.push('.')) == spec_encode_name(name),
        name_encodable(name.push('.')) == name_encodable(name),
{
    let dot = seq!['.'];
    assert(name.push('.') =~= name + dot);
    lemma_encode_utf8_concat(name, dot);
    assert(encode_utf8(dot) =~= vstd::utf8::encode_scalar('.' as u32)) by {
        reveal_with_fuel(vstd::utf8::encode_utf8, 2);
        assert(dot[0] == '.');
        assert(dot.drop_first() =~= Seq::<char>::empty());
        assert(encode_utf8(Seq::<char>::empty()) =~= Seq::<u8>::empty());
    }
    assert('.' as u32 == 46);
    assert(vstd::utf8::encode_scalar(46u32) =~= seq![46u8]) by {
        assert(vstd::utf8::leading_byte_width_1(46u32) == 46u8) by (bit_vector);
    }
    assert(encode_utf8(name + dot) =~= encode_utf8(name).push(46));
    lemma_split_push_sep(encode_utf8(name), 46);
    let parts = name_labels(name);
    assert(name_labels(name + dot) == parts.push(Seq::<u8>::empty()));
    lemma_encode_labels_push(parts, Seq::<u8>::empty());
    assert(spec_encode_labels(parts.push(Seq::<u8>::empty())) =~= spec_encode_labels(parts));
    assert(spec_encode_name(name.push('.')) =~= spec_encode_name(name));
    // An empty label always fits, so the length check is unchanged too.
    let partsd = parts.push(Seq::<u8>::empty());
    if labels_fit(parts) {
        assert forall|i: int| 0 <= i < partsd.len() implies label_fits(#[trigger] partsd[i]) by {
            if i < parts.len() {
                assert(partsd[i] == parts[i]);
            }
        }
    }
    if labels_fit(partsd) {
        assert forall|i: int| 0 <= i < parts.len() implies label_fits(#[trigger] parts[i]) by {
            assert(parts[i] == partsd[i]);
        }
    }
}

/// A single byte below 0x80 on its own is valid UTF-8.
proof fn lemma_ascii_byte_valid(b: u8)
    requires
        b < 0x80,
    ensures
        valid_utf8(seq![b]),
{
    let s = seq![b];
    reveal_with_fuel(vstd::utf8::valid_utf8, 2);
    assert(b < 0x80 ==> (b & 0x7F) == b) by (bit_vector);
    assert(vstd::utf8::valid_first_scalar(s));
    assert(vstd::utf8::pop_first_scalar(s) =~= Seq::<u8>::empty());
    assert(valid_utf8(Seq::<u8>::empty()));
}

/// The encoding of any scalar other than an ASCII byte's own value never
/// holds that ASCII byte: multi-byte encodings use bytes of 0x80 and above
/// only.
proof fn lemma_scalar_bytes_not_sep(v: u32, sep: u8)
    requires
        vstd::utf8::is_scalar(v),
        sep < 0x80,
        v != sep as u32,
    ensures
        forall|j: int| 0 <= j < vstd::utf8::encode_scalar(v).len()
            ==> #[trigger] vstd::utf8::encode_scalar(v)[j] != sep,
{
    let e = vstd::utf8::encode_scalar(v);
    if vstd::utf8::has_width_1_encoding(v) {
        assert(v <= 0x7F && sep < 0x80 && v != (sep as u32) ==> ((v & 0x7F) as u8) != sep)
            by (bit_vector);
    } else {
        assert(sep < 0x80 ==> (0xC0u8 | (((v >> 6) & 0x1F) as u8)) != sep) by (bit_vector);
        assert(sep < 0x80 ==> (0xE0u8 | (((v >> 12) & 0x0F) as u8)) != sep) by (bit_vector);
        assert(sep < 0x80 ==> (0xF0u8 | (((v >> 18) & 0x7) as u8)) != sep) by (bit_vector);
        assert(sep < 0x80 ==> (0x80u8 | ((v & 0x3F) as u8)) != sep) by (bit_vector);
        assert(sep < 0x80 ==> (0x80u8 | (((v >> 6) & 0x3F) as u8)) != sep) by (bit_vector);
        assert(sep < 0x80 ==> (0x80u8 | (((v >> 12) & 0x3F) as u8)) != sep) by (bit_vector);
    }
}

/// Prepending bytes free of the separator extends the first part of the
/// split and leaves the other parts alone.
proof fn lemma_split_prepend_nosep(pre: Seq<u8>, x: Seq<u8>, sep: u8)
    requires
        forall|j: int| 0 <= j < pre.len() ==> pre[j] != sep,
    ensures
        spec_split(pre + x, sep) == seq![pre + spec_split(x, sep)[0]] + spec_split(
            x,
            sep,
        ).drop_first(),
    decreases pre.len(),
{
    lemma_split_len(x, sep);
    if pre.len() == 0 {
        assert(pre + x =~= x);
        assert(pre + spec_split(x, sep)[0] =~= spec_split(x, sep)[0]);
        assert(seq![pre + spec_split(x, sep)[0]] + spec_split(x, sep).drop_first() =~~= spec_split(
            x,
            sep,
        ));
    } else {
        lemma_split_prepend_nosep(pre.drop_first(), x, sep);
        let s = pre + x;
        assert(s[0] == pre[0]);
        assert(s.drop_first() =~= pre.drop_first() + x);
        let t = spec_split(pre.drop_first() + x, sep);
        assert(t == seq![pre.drop_first() + spec_split(x, sep)[0]] + spec_split(
            x,
            sep,
        ).drop_first());
        assert(t.len() >= 1);
        assert(t[0] == pre.drop_first() + spec_split(x, sep)[0]);
        assert(t.drop_first() =~= spec_split(x, sep).drop_first());
        assert(seq![s[0]] + t[0] =~= pre + spec_split(x, sep)[0]);
        assert(spec_split(s, sep) =~~= seq![pre + spec_split(x, sep)[0]] + spec_split(
            x,
            sep,
        ).drop_first());
    }
}

/// Every part of a name's UTF-8 bytes split at the dot is itself valid
/// UTF-8: the dot is ASCII and never occurs inside the encoding of another
/// character.
pub proof fn lemma_name_parts_valid(chars: Seq<char>)
    ensures
        forall|i: int| 0 <= i < spec_split(encode_utf8(chars), 46).len() ==> valid_utf8(
            #[trigger] spec_split(encode_utf8(chars), 46)[i],
        ),
    decreases chars.len(),
{
    broadcast use vstd::utf8::encode_utf8_valid_utf8;

    if chars.len() == 0 {
        assert(encode_utf8(chars) =~= Seq::<u8>::empty());
        assert(spec_split(encode_utf8(chars), 46)[0] == Seq::<u8>::empty());
    } else {
        let c = chars[0];
        let rest = chars.drop_first();
        lemma_name_parts_valid(rest);
        lemma_split_len(encode_utf8(rest), 46);
        let sb = vstd::utf8::encode_scalar(c as u32);
        let r = encode_utf8(rest);
        let parts = spec_split(encode_utf8(chars), 46);
        assert(encode_utf8(chars) == sb + r);
        vstd::utf8::char_is_scalar(c);
        if c == '.' {
            assert('.' as u32 == 46);
            assert(sb =~= seq![46u8]) by {
                assert(vstd::utf8::leading_byte_width_1(46u32) == 46u8) by (bit_vector);
            }
            assert((sb + r)[0] == 46);
            assert((sb + r).drop_first() =~= r);
            assert(parts == seq![Seq::<u8>::empty()] + spec_split(r, 46));
            assert forall|i: int| 0 <= i < parts.len() implies valid_utf8(
                #[trigger] parts[i],
            ) by {
                if i > 0 {
                    assert(parts[i] == spec_split(r, 46)[i - 1]);
                }
            }
        } else {
            assert(c as u32 != 46) by {
                if c as u32 == 46 {
                    vstd::utf8::char_u32_cast(c, 46);
                    assert('.' as u32 == 46);
                    vstd::utf8::char_u32_cast('.', 46);
                }
            }
            lemma_scalar_bytes_not_sep(c as u32, 46);
            lemma_split_prepend_nosep(sb, r, 46);
            assert(parts == seq![sb + spec_split(r, 46)[0]] + spec_split(r, 46).drop_first());
            assert(sb =~= encode_utf8(seq![c])) by {
                reveal_with_fuel(encode_utf8, 2);
                assert(seq![c][0] == c);
                assert(seq![c].drop_first() =~= Seq::<char>::empty());
            }
            assert(valid_utf8(sb));
            assert(valid_utf8(spec_split(r, 46)[0]));
            vstd::utf8::valid_utf8_concat(sb, spec_split(r, 46)[0]);
            assert forall|i: int| 0 <= i < parts.len() implies valid_utf8(
                #[trigger] parts[i],
            ) by {
                if i == 0 {
                    assert(parts[0] == sb + spec_split(r, 46)[0]);
                } else {
                    assert(parts[i] == spec_split(r, 46)[i]);
                }
            }
        }
    }
}

/// A list of valid parts joined with an ASCII separator is valid UTF-8.
proof fn lemma_join_all_valid(q: Seq<Seq<u8>>, sep: u8)
    requires
        sep < 0x80,
        forall|i: int| 0 <= i < q.len() ==> valid_utf8(#[trigger] q[i]),
    ensures
        valid_utf8(spec_join(q, sep)),
    decreases q.len(),
{
    if q.len() == 0 {
    } else if q.len() == 1 {
        assert(spec_join(q, sep) == q[0]);
    } else {
        assert forall|i: int| 0 <= i < q.drop_first().len() implies valid_utf8(
            #[trigger] q.drop_first()[i],
        ) by {
            assert(q.drop_first()[i] == q[i + 1]);
        }
        lemma_join_all_valid(q.drop_first(), sep);
        lemma_ascii_byte_valid(sep);
        vstd::utf8::valid_utf8_concat(q[0], seq![sep]);
        vstd::utf8::valid_utf8_concat(q[0] + seq![sep], spec_join(q.drop_first(), sep));
        assert(spec_join(q, sep) =~= (q[0] + seq![sep]) + spec_join(q.drop_first(), sep));
    }
}

/// Dropping the empty parts keeps every part valid.
proof fn lemma_nonempty_parts_valid(parts: Seq<Seq<u8>>)
    requires
        forall|i: int| 0 <= i < parts.len() ==> valid_utf8(#[trigger] parts[i]),
    ensures
        forall|i: int| 0 <= i < nonempty_labels(parts).len() ==> valid_utf8(
            #[trigger] nonempty_labels(parts)[i],
        ),
    decreases parts.len(),
{
    if parts.len() == 0 {
    } else {
        assert forall|i: int| 0 <= i < parts.drop_first().len() implies valid_utf8(
            #[trigger] parts.drop_first()[i],
        ) by {
            assert(parts.drop_first()[i] == parts[i + 1]);
        }
        lemma_nonempty_parts_valid(parts.drop_first());
        let ne = nonempty_labels(parts);
        if parts[0].len() == 0 {
        } else {
            assert forall|i: int| 0 <= i < ne.len() implies valid_utf8(#[trigger] ne[i]) by {
                if i > 0 {
                    assert(ne[i] == nonempty_labels(parts.drop_first())[i - 1]);
                }
            }
        }
    }
}

/// The labels a parsed name yields from any name's wire form spell a valid
/// UTF-8 name, with the empty labels dropped.
pub proof fn lemma_name_labels_valid(name: Seq<char>)
    ensures
        labels_name_valid(nonempty_labels(name_labels(name))),
{
    lemma_name_parts_valid(name);
    lemma_nonempty_parts_valid(name_labels(name));
    lemma_join_all_valid(nonempty_labels(name_labels(name)), 46);
}

/// What parsing a name at `pos` yields: the position after the name as read
/// in place, and the label bytes gathered across any compression pointers.
/// `None` stands for every malformed case: a reserved length byte, a label or
/// pointer running past the packet, or a pointer chain deeper than `depth`.
pub open spec fn spec_parse_name(data: Seq<u8>, pos: int, depth: int) -> Option<(int, Seq<Seq<u8>>)>
    decreases depth, data.len() - pos,
{
    if depth <= 0 || pos < 0 || pos >= data.len() {
        None
    } else {
        let b = data[pos];
        if b == 0 {
            Some((pos + 1, Seq::<Seq<u8>>::empty()))
        } else if b < 64 {
            if pos + 1 + (b as int) <= data.len() {
                match spec_parse_name(data, pos + 1 + (b as int), depth) {
                    Some(r) => Some(
                        (r.0, seq![data.subrange(pos + 1, pos + 1 + (b as int))] + r.1),
                    ),
                    None => None,
                }
            } else {
                None
            }
        } else if b >= 192 {
            if pos + 1 < data.len() {
                let target = (b - 192) * 256 + data[pos + 1];
                match spec_parse_name(data, target as int, depth - 1) {
                    Some(r) => Some((pos + 2, r.1)),
                    None => None,
                }
            } else {
                None
            }
        } else {
            None
        }
    }
}

/// A successful name parse moves forward and stays inside the packet.
pub proof fn lemma_parse_name_bounds(data: Seq<u8>, pos: int, depth: int)
    requires
        spec_parse_name(data, pos, depth) is Some,
    ensures
        pos < spec_parse_name(data, pos, depth).unwrap().0 <= data.len(),
    decreases depth, data.len() - pos,
{
    let b = data[pos];
    if b == 0 {
    } else if b < 64 {
        lemma_parse_name_bounds(data, pos + 1 + (b as int), depth);
    } else {
    }
}

/// The dotted byte form of parsed labels: the labels joined with dots.
pub open spec fn labels_joined(labels: Seq<Seq<u8>>) -> Seq<u8> {
    spec_join(labels, 46)
}

/// Whether the joined labels are valid UTF-8, so that they spell a name.
pub open spec fn labels_name_valid(labels: Seq<Seq<u8>>) -> bool {
    valid_utf8(labels_joined(labels))
}

/// The dotted textual name the parsed labels spell.
pub open spec fn spec_labels_name(labels: Seq<Seq<u8>>) -> Seq<char> {
    decode_utf8(labels_joined(labels))
}

/// Relies on String::from_utf8: it succeeds exactly on valid UTF-8 input and
/// returns the string those bytes encode.
#[verifier::external_body]
pub(crate) fn string_from_utf8(bytes: Vec<u8>) -> (r: Option<String>)
    ensures
        r is Some <==> valid_utf8(bytes@),
        r matches Some(s) ==> s@ == decode_utf8(bytes@),
{
    match String::from_utf8(bytes) {
        Ok(s) => Some(s),
        Err(_) => None,
    }
}

/// Splits the bytes of `data` from index `i` on at every `sep`.
pub(crate) fn split_bytes_from(data: &[u8], i: usize, sep: u8) -> (r: Vec<Vec<u8>>)
    requires
        i <= data@.len(),
    ensures
        r.deep_view() == spec_split(data@.skip(i as int), sep),
        r@.len() >= 1,
    decreases data@.len() - i,
{
    proof {
        lemma_split_len(data@.skip(i as int), sep);
    }
    if i == data.len() {
        let mut r: Vec<Vec<u8>> = Vec::new();
        r.push(Vec::new());
        assert(r.deep_view() =~~= spec_split(data@.skip(i as int), sep));
        r
    } else if data[i] == sep {
        let mut r = split_bytes_from(data, i + 1, sep);
        r.insert(0, Vec::new());
        proof {
            assert(data@.skip(i as int).drop_first() =~= data@.skip(i as int + 1));
            assert(r.deep_view() =~~= spec_split(data@.skip(i as int), sep));
        }
        r
    } else {
        let mut r = split_bytes_from(data, i + 1, sep);
        proof {
            lemma_split_len(data@.skip(i as int + 1), sep);
        }
        let mut first = r.remove(0);
        first.insert(0, data[i]);
        r.insert(0, first);
        proof {
            let s = data@.skip(i as int);
            assert(s.drop_first() =~= data@.skip(i as int + 1));
            assert(s[0] == data@[i as int]);
            assert(r.deep_view() =~~= spec_split(s, sep));
        }
        r
    }
}

/// Joins labels with `sep` between each neighbouring pair.
pub(crate) fn join_labels(labels: &Vec<Vec<u8>>, sep: u8) -> (r: Vec<u8>)
    ensures
        r@ == spec_join(labels.deep_view(), sep),
{
    let mut r: Vec<u8> = Vec::new();
    if labels.len() == 0 {
        assert(r@ =~= spec_join(labels.deep_view(), sep));
        return r;
    }
    let mut i: usize = 0;
    while i < labels.len()
        invariant
            i <= labels@.len(),
            i == 0 ==> r@ == Seq::<u8>::empty(),
            i >= 1 ==> r@ == spec_join(labels.deep_view().take(i as int), sep),
        decreases labels@.len() - i,
    {
        if i > 0 {
            r.push(sep);
        }
        let lab = &labels[i];
        let mut k: usize = 0;
        let ghost mid = r@;
        while k < lab.len()
            invariant
                k <= lab@.len(),
                r@ == mid + lab@.take(k as int),
            decreases lab@.len() - k,
        {
            r.push(lab[k]);
            assert(r@ =~= mid + lab@.take(k as int + 1));
            k = k + 1;
        }
        assert(r@ =~= mid + lab@);
        proof {
            let dv = labels.deep_view();
            assert(dv[i as int] == labels@[i as int]@);
            if i == 0 {
                assert(dv.take(1) =~= seq![dv[0]]);
                assert(spec_join(dv.take(1), sep) == dv[0]);
                assert(r@ =~= spec_join(dv.take(1), sep));
            } else {
                lemma_join_push(dv.take(i as int), dv[i as int], sep);
                assert(dv.take(i as int).push(dv[i as int]) =~= dv.take(i as int + 1));
                assert(r@ =~= spec_join(dv.take(i as int + 1), sep));
            }
        }
        i = i + 1;
    }
    assert(labels.deep_view().take(labels@.len() as int) =~= labels.deep_view());
    r
}

/// Parses a name's labels at `pos`, chasing at most `depth` pointers. The
/// termination measure bounds the work on every input: each label step
/// advances the cursor and each pointer hop spends one unit of depth, so
/// parsing finishes even on crafted compression loops, which fail once the
/// depth is spent.
pub(crate) fn parse_name_labels(data: &[u8], pos: usize, depth: u32) -> (r: Result<
    (usize, Vec<Vec<u8>>),
    DnsCodecError,
>)
    ensures
        match spec_parse_name(data@, pos as int, depth as int) {
            Some(v) => r matches Ok(ok) && ok.0 == v.0 && ok.1.deep_view() == v.1,
            None => r matches Err(e) && e is ParseFailure,
        },
    decreases depth, data@.len() - pos,
{
    if depth == 0 || pos >= data.len() {
        return Err(DnsCodecError::ParseFailure(msg_name_past_end()));
    }
    let b = data[pos];
    if b == 0 {
        let empty: Vec<Vec<u8>> = Vec::new();
        assert(empty.deep_view() =~~= Seq::<Seq<u8>>::empty());
        Ok((pos + 1, empty))
    } else if b < 64 {
        if (b as usize) <= data.len() - (pos + 1) {
            let lab_end = pos + 1 + (b as usize);
            let mut label: Vec<u8> = Vec::new();
            let mut k = pos + 1;
            while k < lab_end
                invariant
                    pos + 1 <= k <= lab_end <= data@.len(),
                    label@ == data@.subrange(pos + 1, k as int),
                decreases lab_end - k,
            {
                label.push(data[k]);
                assert(label@ =~= data@.subrange(pos + 1, k as int + 1));
                k = k + 1;
            }
            match parse_name_labels(data, lab_end, depth) {
                Ok(ok) => {
                    let (end, mut rest) = ok;
                    rest.insert(0, label);
                    proof {
                        let v = spec_parse_name(data@, pos as int, depth as int).unwrap();
                        assert(rest.deep_view() =~~= v.1);
                    }
                    Ok((end, rest))
                },
                Err(e) => Err(e),
            }
        } else {
            Err(DnsCodecError::ParseFailure(msg_name_past_end()))
        }
    } else if b >= 192 {
        if pos + 1 < data.len() {
            let target = ((b - 192) as usize) * 256 + (data[pos + 1] as usize);
            match parse_name_labels(data, target, depth - 1) {
                Ok(ok) => Ok((pos + 2, ok.1)),
                Err(e) => Err(e),
            }
        } else {
            Err(DnsCodecError::ParseFailure(msg_name_past_end()))
        }
    } else {
        Err(DnsCodecError::ParseFailure(msg_reserved_length()))
    }
}

fn msg_name_past_end() -> String {
    "domain name runs past the end of the packet or chases too many pointers".to_owned()
}

fn msg_reserved_length() -> String {
    "reserved label length byte".to_owned()
}

/// Parsing a packet region that holds the wire form of `parts` followed by
/// the terminating zero byte yields exactly the non-empty labels and stops
/// right after the zero byte.
pub proof fn lemma_parse_encoded_labels(data: Seq<u8>, pos: int, parts: Seq<Seq<u8>>, depth: int)
    requires
        labels_fit(parts),
        0 <= pos,
        depth >= 1,
        pos + spec_encode_labels(parts).len() + 1 <= data.len(),
        data.subrange(pos, pos + spec_encode_labels(parts).len() + 1) == spec_encode_labels(parts)
            + seq![0u8],
    ensures
        spec_parse_name(data, pos, depth) == Some(
            ((pos + spec_encode_labels(parts).len() + 1) as int, nonempty_labels(parts)),
        ),
    decreases parts.len(),
{
    let enc = spec_encode_labels(parts);
    let whole = enc + seq![0u8];
    assert(forall|j: int|
        0 <= j < whole.len() ==> data[pos + j] == #[trigger] whole[j]) by {
        assert(forall|j: int|
            0 <= j < whole.len() ==> #[trigger] whole[j] == data.subrange(
                pos,
                pos + enc.len() + 1,
            )[j]);
    }
    if parts.len() == 0 {
        assert(whole[0] == 0u8);
        assert(data[pos + 0] == whole[0]);
        assert(data[pos] == 0);
        assert(spec_parse_name(data, pos, depth) == Some(
            ((pos + 1) as int, Seq::<Seq<u8>>::empty()),
        ));
        assert(nonempty_labels(parts) =~~= Seq::<Seq<u8>>::empty());
    } else if parts[0].len() == 0 {
        assert(enc == spec_encode_labels(parts.drop_first()));
        lemma_parse_encoded_labels(data, pos, parts.drop_first(), depth);
        assert(nonempty_labels(parts) == nonempty_labels(parts.drop_first()));
    } else {
        let l = parts[0];
        let rest = parts.drop_first();
        let enc_rest = spec_encode_labels(rest);
        assert(enc == seq![(l.len() % 256) as u8] + l + enc_rest);
        assert(l.len() <= 63);
        assert((l.len() % 256) as u8 == l.len() as u8);
        let b = data[pos];
        assert(b == whole[0]);
        assert(b == l.len() as u8);
        assert(1 <= b < 64);
        let pos2 = pos + 1 + l.len() as int;
        assert(enc.len() == 1 + l.len() + enc_rest.len());
        // The label bytes stand right after the length byte.
        assert forall|j: int| 0 <= j < l.len() implies data.subrange(pos + 1, pos2)[j] == l[j] by {
            assert(data[pos + 1 + j] == whole[1 + j]);
            assert(whole[1 + j] == l[j]);
        }
        assert(data.subrange(pos + 1, pos2) =~= l);
        // The rest of the wire form stands after the label.
        assert forall|j: int| 0 <= j < enc_rest.len() + 1 implies data.subrange(
            pos2,
            pos2 + enc_rest.len() + 1,
        )[j] == (enc_rest + seq![0u8])[j] by {
            assert(data[pos2 + j] == whole[1 + l.len() + j]);
            assert(whole[1 + l.len() + j] == (enc_rest + seq![0u8])[j]);
        }
        assert(data.subrange(pos2, pos2 + enc_rest.len() + 1) =~= enc_rest + seq![0u8]);
        lemma_parse_encoded_labels(data, pos2, rest, depth);
        assert(pos + 1 + (b as int) == pos2);
        let inner = spec_parse_name(data, pos2, depth);
        assert(inner == Some(((pos2 + enc_rest.len() + 1) as int, nonempty_labels(rest))));
        assert(pos2 + enc_rest.len() + 1 == pos + enc.len() + 1);
        assert(spec_parse_name(data, pos, depth).unwrap().1 =~~= nonempty_labels(parts));
        assert(spec_parse_name(data, pos, depth) == Some(
            ((pos + enc.len() + 1) as int, nonempty_labels(parts)),
        ));
    }
}

/// Name round trip: a name made of non-empty labels, each at most 63 bytes,
/// comes back unchanged when its wire form is parsed and the labels are
/// joined with dots again.
pub proof fn lemma_name_round_trip(name: Seq<char>)
    requires
        name_encodable(name),
        forall|i: int| 0 <= i < name_labels(name).len() ==> #[trigger] name_labels(
            name,
        )[i].len() > 0,
    ensures
        spec_parse_name(spec_encode_name(name), 0, MAX_POINTER_DEPTH as int) == Some(
            (spec_encode_name(name).len() as int, name_labels(name)),
        ),
        labels_name_valid(name_labels(name)),
        spec_labels_name(name_labels(name)) == name,
{
    broadcast use vstd::utf8::encode_utf8_valid_utf8, vstd::utf8::encode_utf8_decode_utf8;

    let labels = name_labels(name);
    let bytes = spec_encode_name(name);
    assert(bytes.subrange(0, bytes.len() as int) =~= spec_encode_labels(labels) + seq![0u8]);
    lemma_parse_encoded_labels(bytes, 0, labels, MAX_POINTER_DEPTH as int);
    lemma_nonempty_labels_id(labels);
    lemma_join_split(encode_utf8(name), 46);
    assert(labels_joined(labels) == encode_utf8(name));
}

/// Appends a name in label form without any length check: a length byte and
/// the bytes of each non-empty label, then the terminating zero byte. A
/// length over 255 wraps, as the length byte cannot hold it.
pub(crate) fn encode_name_unchecked(name: &str, dst: &mut Vec<u8>)
    ensures
        final(dst)@ == old(dst)@ + spec_encode_name(name@),
{
    let bytes = name.as_bytes();
    let labels = split_bytes_from(bytes, 0, 46);
    proof {
        assert(bytes@.skip(0) =~= bytes@);
    }
    let ghost parts = labels.deep_view();
    let mut i: usize = 0;
    while i < labels.len()
        invariant
            i <= labels@.len(),
            parts == labels.deep_view(),
            parts == name_labels(name@),
            dst@ == old(dst)@ + spec_encode_labels(parts.take(i as int)),
        decreases labels@.len() - i,
    {
        let lab = &labels[i];
        proof {
            assert(parts[i as int] == labels@[i as int]@);
        }
        if lab.len() > 0 {
            dst.push((lab.len() % 256) as u8);
            let mut k: usize = 0;
            let ghost mid = dst@;
            while k < lab.len()
                invariant
                    k <= lab@.len(),
                    dst@ == mid + lab@.take(k as int),
                decreases lab@.len() - k,
            {
                dst.push(lab[k]);
                assert(dst@ =~= mid + lab@.take(k as int + 1));
                k = k + 1;
            }
            assert(dst@ =~= mid + lab@);
        }
        proof {
            lemma_encode_labels_push(parts.take(i as int), parts[i as int]);
            assert(parts.take(i as int).push(parts[i as int]) =~= parts.take(i as int + 1));
            assert(dst@ =~= old(dst)@ + spec_encode_labels(parts.take(i as int + 1)));
        }
        i = i + 1;
    }
    dst.push(0);
    proof {
        assert(parts.take(parts.len() as int) =~= parts);
        assert(dst@ =~= old(dst)@ + spec_encode_name(name@));
    }
}

/// Turns parsed labels into the dotted textual name; bytes that are not
/// valid UTF-8 are rejected.
pub(crate) fn labels_to_name(labels: &Vec<Vec<u8>>) -> (r: Result<String, DnsCodecError>)
    ensures
        labels_name_valid(labels.deep_view()) ==> (r matches Ok(s) && s@ == spec_labels_name(
            labels.deep_view(),
        )),
        !labels_name_valid(labels.deep_view()) ==> (r matches Err(e) && e is ParseFailure),
{
    let joined = join_labels(labels, 46);
    match string_from_utf8(joined) {
        Some(s) => Ok(s),
        None => Err(DnsCodecError::ParseFailure("domain name is not UTF-8".to_owned())),
    }
}

} // verus!

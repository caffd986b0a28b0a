//! Domain names on the wire: length-prefixed labels closed by a zero byte,
//! with compression pointers followed on the way in and none written on the
//! way out.

use vstd::prelude::*;
use vstd::string::StringExecFns;
use vstd::string::StringSliceAdditionalSpecFns;
use crate::buffer::{splice, BytePacketBuffer};
use crate::error::DnsError;
use crate::text::{bytes_text, bytes_to_text, lowercase, text_to_lowercase};

verus! {

/// The number of compression jumps that one name may take.
pub const MAX_JUMPS: usize = 5;

/// The longest label that may be written.
pub const MAX_LABEL_LEN: usize = 63;

/// The byte that separates labels in a dotted name.
pub const DOT: u8 = 0x2E;

/// A length byte with its two top bits set opens a compression pointer.
pub open spec fn is_pointer(byte: u8) -> bool {
    byte >= 0xC0
}

/// The offset that the two bytes of a pointer name: their low fourteen bits.
pub open spec fn pointer_target(first: u8, second: u8) -> int {
    (first - 0xC0) * 256 + second
}

/// The views of a vector of labels.
pub open spec fn labels_view(labels: Seq<Vec<u8>>) -> Seq<Seq<u8>> {
    labels.map_values(|label: Vec<u8>| label@)
}

/// The views of a vector of texts.
pub open spec fn texts_view(texts: Seq<String>) -> Seq<Seq<char>> {
    texts.map_values(|text: String| text@)
}

/// The labels of a dotted name given as bytes: the runs between its dots.
/// A name without a dot is one label, and so is the empty name.
pub open spec fn split_labels(name: Seq<u8>) -> Seq<Seq<u8>>
    decreases name.len(),
{
    if name.len() == 0 {
        seq![Seq::<u8>::empty()]
    } else {
        let before = split_labels(name.drop_last());
        if name.last() == DOT {
            before.push(Seq::<u8>::empty())
        } else {
            before.drop_last().push(before.last().push(name.last()))
        }
    }
}

/// Every label fits the six bits of a length byte.
pub open spec fn labels_ok(labels: Seq<Seq<u8>>) -> bool {
    forall|i: int| 0 <= i < labels.len() ==> (#[trigger] labels[i]).len() <= MAX_LABEL_LEN
}

/// No label is empty: the form in which a written name reads back whole.
pub open spec fn labels_nonempty(labels: Seq<Seq<u8>>) -> bool {
    forall|i: int| 0 <= i < labels.len() ==> (#[trigger] labels[i]).len() >= 1
}

/// The labels, each behind its length byte.
pub open spec fn labels_body(labels: Seq<Seq<u8>>) -> Seq<u8>
    decreases labels.len(),
{
    if labels.len() == 0 {
        Seq::<u8>::empty()
    } else {
        labels_body(labels.drop_last()) + seq![labels.last().len() as u8] + labels.last()
    }
}

/// A name on the wire: its labels, each behind its length byte, and a closing zero.
pub open spec fn labels_wire(labels: Seq<Seq<u8>>) -> Seq<u8> {
    labels_body(labels) + seq![0u8]
}

/// The wire form of a dotted name given as text.
pub open spec fn name_wire(name: Seq<char>) -> Seq<u8> {
    labels_wire(split_labels(vstd::utf8::encode_utf8(name)))
}

/// The labels of a dotted name given as text all fit a length byte.
pub open spec fn name_ok(name: Seq<char>) -> bool {
    labels_ok(split_labels(vstd::utf8::encode_utf8(name)))
}

/// `labels` in front of what a decoding step gave.
pub open spec fn prepend(labels: Seq<Seq<u8>>, rest: Result<Seq<Seq<u8>>, DnsError>) -> Result<
    Seq<Seq<u8>>,
    DnsError,
> {
    match rest {
        Ok(more) => Ok(labels + more),
        Err(e) => Err(e),
    }
}

/// The labels of the name that starts at `pos`, after `jumps` compression jumps.
///
/// A pointer continues the name at the offset it holds; a zero byte ends it;
/// any other byte is the length of a label that follows. The sixth jump is
/// refused, and so is every step beyond the end of the bytes.
pub open spec fn parse_labels(bytes: Seq<u8>, pos: int, jumps: nat) -> Result<
    Seq<Seq<u8>>,
    DnsError,
>
    decreases MAX_JUMPS + 1 - jumps, bytes.len() - pos,
{
    if jumps > MAX_JUMPS {
        Err(DnsError::NameLoop)
    } else if !(0 <= pos < bytes.len()) {
        Err(DnsError::OutOfBounds)
    } else if is_pointer(bytes[pos]) {
        if pos + 1 >= bytes.len() {
            Err(DnsError::OutOfBounds)
        } else {
            parse_labels(bytes, pointer_target(bytes[pos], bytes[pos + 1]), jumps + 1)
        }
    } else if bytes[pos] == 0 {
        Ok(Seq::<Seq<u8>>::empty())
    } else if pos + 1 + bytes[pos] > bytes.len() {
        Err(DnsError::OutOfBounds)
    } else {
        prepend(
            seq![bytes.subrange(pos + 1, pos + 1 + bytes[pos])],
            parse_labels(bytes, pos + 1 + bytes[pos], jumps),
        )
    }
}

/// Where the cursor stands after the name at `pos`: behind its closing zero,
/// or behind the first pointer met.
pub open spec fn name_end(bytes: Seq<u8>, pos: int) -> int
    decreases bytes.len() - pos,
{
    if !(0 <= pos < bytes.len()) {
        pos
    } else if is_pointer(bytes[pos]) {
        pos + 2
    } else if bytes[pos] == 0 {
        pos + 1
    } else if pos + 1 + bytes[pos] > bytes.len() {
        pos
    } else {
        name_end(bytes, pos + 1 + bytes[pos])
    }
}

/// Texts joined by dots.
pub open spec fn join_dotted(texts: Seq<Seq<char>>) -> Seq<char>
    decreases texts.len(),
{
    if texts.len() == 0 {
        Seq::<char>::empty()
    } else if texts.len() == 1 {
        texts[0]
    } else {
        join_dotted(texts.drop_last()) + seq!['.'] + texts.last()
    }
}

/// The text of one label: its bytes read as UTF-8, malformed runs replaced, in lower case.
pub open spec fn label_text(label: Seq<u8>) -> Seq<char> {
    lowercase(bytes_text(label))
}

/// The dotted text of a decoded name.
pub open spec fn name_text(labels: Seq<Seq<u8>>) -> Seq<char> {
    join_dotted(labels.map_values(|label: Seq<u8>| label_text(label)))
}

/// The form in which a name comes back from the wire: label by label in lower case.
pub open spec fn canonical_name(name: Seq<char>) -> Seq<char> {
    name_text(split_labels(vstd::utf8::encode_utf8(name)))
}

/// A dotted name has at least one label.
pub proof fn lemma_split_nonempty(name: Seq<u8>)
    ensures
        split_labels(name).len() >= 1,
    decreases name.len(),
{
    if name.len() > 0 {
        lemma_split_nonempty(name.drop_last());
    }
}

/// A name on the wire is two bytes longer than its dotted form.
pub proof fn lemma_name_wire_len(name: Seq<u8>)
    ensures
        labels_wire(split_labels(name)).len() == name.len() + 2,
    decreases name.len(),
{
    if name.len() == 0 {
        let one = seq![Seq::<u8>::empty()];
        assert(one.drop_last() =~= Seq::<Seq<u8>>::empty());
        assert(labels_body(one.drop_last()) =~= Seq::<u8>::empty());
        assert(labels_body(one).len() == 1);
    } else {
        let before = split_labels(name.drop_last());
        lemma_split_nonempty(name.drop_last());
        lemma_name_wire_len(name.drop_last());
        if name.last() == DOT {
            let now = before.push(Seq::<u8>::empty());
            assert(now.drop_last() =~= before);
        } else {
            let grown = before.last().push(name.last());
            let now = before.drop_last().push(grown);
            assert(now.drop_last() =~= before.drop_last());
            assert(now.last() == grown);
        }
    }
}

/// The body of a list of labels starts with its first label behind its length byte.
pub proof fn lemma_body_front(labels: Seq<Seq<u8>>)
    requires
        labels.len() >= 1,
    ensures
        labels_body(labels) == seq![labels[0].len() as u8] + labels[0] + labels_body(
            labels.drop_first(),
        ),
    decreases labels.len(),
{
    if labels.len() == 1 {
        assert(labels.drop_last() =~= Seq::<Seq<u8>>::empty());
        assert(labels.drop_first() =~= Seq::<Seq<u8>>::empty());
        assert(labels_body(labels) =~= seq![labels[0].len() as u8] + labels[0] + labels_body(
            labels.drop_first(),
        ));
    } else {
        lemma_body_front(labels.drop_last());
        assert(labels.drop_last().drop_first() =~= labels.drop_first().drop_last());
        assert(labels.drop_first().last() == labels.last());
        assert(labels.drop_last()[0] == labels[0]);
        assert(labels_body(labels) =~= seq![labels[0].len() as u8] + labels[0] + labels_body(
            labels.drop_first(),
        ));
    }
}

/// A written name reads back as the labels it was written from: where labels
/// of one to 63 bytes stand on the wire at `pos`, decoding at `pos` yields
/// them, takes no jump, and ends behind the closing zero.
pub proof fn lemma_labels_round_trip(bytes: Seq<u8>, pos: int, labels: Seq<Seq<u8>>, jumps: nat)
    requires
        labels_ok(labels),
        labels_nonempty(labels),
        jumps <= MAX_JUMPS,
        0 <= pos,
        pos + labels_wire(labels).len() <= bytes.len(),
        bytes.subrange(pos, pos + labels_wire(labels).len()) == labels_wire(labels),
    ensures
        parse_labels(bytes, pos, jumps) == Ok::<Seq<Seq<u8>>, DnsError>(labels),
        name_end(bytes, pos) == pos + labels_wire(labels).len(),
    decreases labels.len(),
{
    let wire = labels_wire(labels);
    assert(bytes[pos] == bytes.subrange(pos, pos + wire.len())[0]);
    if labels.len() == 0 {
        assert(wire =~= seq![0u8]);
        assert(parse_labels(bytes, pos, jumps) == Ok::<Seq<Seq<u8>>, DnsError>(labels)) by {
            assert(labels =~= Seq::<Seq<u8>>::empty());
        }
    } else {
        lemma_body_front(labels);
        let first = labels[0];
        let rest = labels.drop_first();
        let n = first.len() as int;
        assert(wire =~= seq![n as u8] + first + labels_wire(rest));
        assert(wire[0] == n as u8);
        assert(1 <= n <= 63);
        assert(bytes[pos] == n);
        let next = pos + 1 + n;
        assert(bytes.subrange(pos + 1, next) =~= first) by {
            assert forall|i: int| 0 <= i < n implies bytes.subrange(pos + 1, next)[i]
                == first[i] by {
                assert(bytes[pos + 1 + i] == bytes.subrange(pos, pos + wire.len())[1 + i]);
            }
        }
        assert(bytes.subrange(next, next + labels_wire(rest).len()) =~= labels_wire(rest)) by {
            assert forall|i: int| 0 <= i < labels_wire(rest).len() implies bytes.subrange(
                next,
                next + labels_wire(rest).len(),
            )[i] == labels_wire(rest)[i] by {
                assert(bytes[next + i] == bytes.subrange(pos, pos + wire.len())[1 + n + i]);
            }
        }
        lemma_labels_round_trip(bytes, next, rest, jumps);
        assert(seq![first] + rest =~= labels);
    }
}

/// A pointer that points at itself is refused as a loop, however many jumps were taken before.
pub proof fn lemma_self_pointer_loops(bytes: Seq<u8>, pos: int, jumps: nat)
    requires
        0 <= pos,
        pos + 1 < bytes.len(),
        is_pointer(bytes[pos]),
        pointer_target(bytes[pos], bytes[pos + 1]) == pos,
    ensures
        parse_labels(bytes, pos, jumps) == Err::<Seq<Seq<u8>>, DnsError>(DnsError::NameLoop),
    decreases MAX_JUMPS + 1 - jumps,
{
    if jumps <= MAX_JUMPS {
        lemma_self_pointer_loops(bytes, pos, jumps + 1);
    }
}


/// Splits a dotted name into the bytes of its labels.
pub fn split_name(name: &str) -> (labels: Vec<Vec<u8>>)
    ensures
        labels_view(labels@) == split_labels(name.spec_bytes()),
{
    let bytes = name.as_bytes();
    let n = bytes.len();
    let mut labels: Vec<Vec<u8>> = Vec::new();
    let mut cur: Vec<u8> = Vec::new();
    let mut i: usize = 0;
    assert(bytes@.take(0) =~= Seq::<u8>::empty());
    assert(labels_view(labels@).push(cur@) =~= seq![Seq::<u8>::empty()]);
    while i < n
        invariant
            i <= n,
            n == bytes@.len(),
            labels_view(labels@).push(cur@) == split_labels(bytes@.take(i as int)),
        decreases n - i,
    {
        let byte = bytes[i];
        proof {
            let upto = bytes@.take(i + 1);
            assert(upto.drop_last() =~= bytes@.take(i as int));
            assert(upto.last() == byte);
            let before = split_labels(upto.drop_last());
            assert(before.last() == cur@);
            assert(before.drop_last() =~= labels_view(labels@));
        }
        if byte == DOT {
            let ghost done = labels@;
            labels.push(cur);
            cur = Vec::new();
            proof {
                assert(labels_view(labels@) =~= labels_view(done).push(labels@.last()@));
            }
        } else {
            cur.push(byte);
        }
        i = i + 1;
    }
    assert(bytes@.take(n as int) =~= bytes@);
    let ghost done = labels@;
    labels.push(cur);
    assert(labels_view(labels@) =~= labels_view(done).push(labels@.last()@));
    labels
}

/// Joins texts with dots.
pub fn join_labels(texts: &Vec<String>) -> (name: String)
    ensures
        name@ == join_dotted(texts_view(texts@)),
{
    let mut name = String::new();
    let n = texts.len();
    let mut i: usize = 0;
    assert(texts_view(texts@).take(0) =~= Seq::<Seq<char>>::empty());
    while i < n
        invariant
            i <= n,
            n == texts@.len(),
            name@ == join_dotted(texts_view(texts@).take(i as int)),
        decreases n - i,
    {
        proof {
            let upto = texts_view(texts@).take(i + 1);
            assert(upto.drop_last() =~= texts_view(texts@).take(i as int));
            assert(upto.last() == texts@[i as int]@);
        }
        if i > 0 {
            name.append(".");
            proof {
                reveal_strlit(".");
                assert("."@ =~= seq!['.']);
            }
        }
        name.append(texts[i].as_str());
        proof {
            if i == 0 {
                assert(name@ =~= texts@[0]@);
            }
        }
        i = i + 1;
    }
    assert(texts_view(texts@).take(n as int) =~= texts_view(texts@));
    name
}

/// The text of each label: its bytes read as UTF-8, in lower case.
pub fn label_texts(labels: &Vec<Vec<u8>>) -> (texts: Vec<String>)
    ensures
        texts_view(texts@) == labels_view(labels@).map_values(
            |label: Seq<u8>| label_text(label),
        ),
{
    let mut texts: Vec<String> = Vec::new();
    let n = labels.len();
    let mut i: usize = 0;
    while i < n
        invariant
            i <= n,
            n == labels@.len(),
            texts@.len() == i,
            forall|k: int| 0 <= k < i ==> (#[trigger] texts@[k])@ == label_text(labels@[k]@),
        decreases n - i,
    {
        let raw = bytes_to_text(labels[i].as_slice());
        let lower = text_to_lowercase(raw.as_str());
        texts.push(lower);
        i = i + 1;
    }
    assert(texts_view(texts@) =~= labels_view(labels@).map_values(
        |label: Seq<u8>| label_text(label),
    ));
    texts
}

/// Whether every label fits a length byte.
pub fn labels_fit(labels: &Vec<Vec<u8>>) -> (ok: bool)
    ensures
        ok == labels_ok(labels_view(labels@)),
{
    let n = labels.len();
    let mut k: usize = 0;
    while k < n
        invariant
            k <= n,
            n == labels@.len(),
            forall|j: int|
                0 <= j < k ==> (#[trigger] labels_view(labels@)[j]).len() <= MAX_LABEL_LEN,
        decreases n - k,
    {
        if labels[k].len() > MAX_LABEL_LEN {
            assert(labels_view(labels@)[k as int].len() > MAX_LABEL_LEN);
            return false;
        }
        k = k + 1;
    }
    true
}

/// Whether every label of a dotted name fits a length byte.
pub fn name_fits(name: &str) -> (ok: bool)
    ensures
        ok == name_ok(name@),
{
    let labels = split_name(name);
    labels_fit(&labels)
}

impl BytePacketBuffer {
    /// Reads the labels of the name at the cursor, following compression pointers.
    ///
    /// The cursor ends behind the name's closing zero, or behind the first
    /// pointer where the name holds one. On failure nothing changes.
    pub fn read_labels(&mut self) -> (res: Result<Vec<Vec<u8>>, DnsError>)
        ensures
            old(self).inv() ==> final(self).inv(),
            final(self).buf == old(self).buf,
            match res {
                Ok(labels) => {
                    &&& parse_labels(old(self).buf@, old(self).pos as int, 0) == Ok::<
                        Seq<Seq<u8>>,
                        DnsError,
                    >(labels_view(labels@))
                    &&& final(self).pos == name_end(old(self).buf@, old(self).pos as int)
                    &&& final(self).pos <= old(self).buf@.len()
                },
                Err(e) => {
                    &&& parse_labels(old(self).buf@, old(self).pos as int, 0) == Err::<
                        Seq<Seq<u8>>,
                        DnsError,
                    >(e)
                    &&& final(self).pos == old(self).pos
                },
            },
    {
        let ghost bytes = self.buf@;
        let ghost start = self.pos as int;
        let size = self.buf.len();
        let mut pos = self.pos;
        let mut end = self.pos;
        let mut jumped = false;
        let mut jumps: usize = 0;
        let mut labels: Vec<Vec<u8>> = Vec::new();
        assert(labels_view(labels@) + Seq::<Seq<u8>>::empty() =~= labels_view(labels@));
        assert(labels_view(labels@) =~= Seq::<Seq<u8>>::empty());
        loop
            invariant
                self.buf@ == bytes,
                *self == *old(self),
                size == bytes.len(),
                start == old(self).pos,
                jumps <= MAX_JUMPS + 1,
                prepend(labels_view(labels@), parse_labels(bytes, pos as int, jumps as nat))
                    == parse_labels(bytes, start, 0),
                jumped ==> end == name_end(bytes, start) && end <= size,
                !jumped ==> name_end(bytes, pos as int) == name_end(bytes, start),
            ensures
                parse_labels(bytes, start, 0) == Ok::<Seq<Seq<u8>>, DnsError>(
                    labels_view(labels@),
                ),
                end == name_end(bytes, start),
                end <= size,
            decreases MAX_JUMPS + 1 - jumps, size - pos,
        {
            if jumps > MAX_JUMPS {
                return Err(DnsError::NameLoop);
            }
            if pos >= size {
                return Err(DnsError::OutOfBounds);
            }
            let len = self.buf[pos];
            if len >= 0xC0 {
                if pos + 1 >= size {
                    return Err(DnsError::OutOfBounds);
                }
                if !jumped {
                    end = pos + 2;
                    jumped = true;
                }
                let second = self.buf[pos + 1];
                pos = ((len - 0xC0) as usize) * 256 + second as usize;
                jumps = jumps + 1;
                continue ;
            }
            if len == 0 {
                if !jumped {
                    end = pos + 1;
                }
                assert(labels_view(labels@) + Seq::<Seq<u8>>::empty() =~= labels_view(labels@));
                break ;
            }
            if len as usize > size - pos - 1 {
                return Err(DnsError::OutOfBounds);
            }
            let label = vstd::slice::slice_to_vec(
                vstd::slice::slice_subrange(self.buf.as_slice(), pos + 1, pos + 1 + len as usize),
            );
            let ghost done = labels@;
            let ghost rest = parse_labels(bytes, pos + 1 + len, jumps as nat);
            labels.push(label);
            proof {
                assert(labels_view(labels@) =~= labels_view(done).push(label@));
                assert(label@ == bytes.subrange(pos + 1, pos + 1 + len));
                match rest {
                    Ok(more) => {
                        assert(labels_view(done) + (seq![label@] + more) =~= labels_view(labels@)
                            + more);
                    },
                    Err(e) => {},
                }
            }
            pos = pos + 1 + len as usize;
        }
        self.pos = end;
        Ok(labels)
    }

    /// Writes labels as a name: each behind its length byte, then a zero.
    ///
    /// A label of more than 63 bytes is refused before anything is written,
    /// and so is a name for which the room does not suffice.
    pub fn write_labels(&mut self, labels: &Vec<Vec<u8>>) -> (res: Result<(), DnsError>)
        ensures
            old(self).inv() ==> final(self).inv(),
            res is Ok <==> labels_ok(labels_view(labels@)) && old(self).fits(
                labels_wire(labels_view(labels@)),
            ),
            res is Ok ==> old(self).wrote(final(self), labels_wire(labels_view(labels@))),
            res is Err ==> *final(self) == *old(self),
            res matches Err(e) ==> e == (if labels_ok(labels_view(labels@)) {
                DnsError::OutOfBounds
            } else {
                DnsError::LabelTooLong
            }),
    {
        let ghost lv = labels_view(labels@);
        let n = labels.len();
        let size = self.buf.len();
        if !labels_fit(labels) {
            return Err(DnsError::LabelTooLong);
        }
        if self.pos >= size {
            return Err(DnsError::OutOfBounds);
        }
        let room = size - self.pos;
        // First pass: every label is checked and the length of the whole is taken.
        let mut need: usize = 1;
        let mut fits = true;
        let mut k: usize = 0;
        assert(lv.take(0) =~= Seq::<Seq<u8>>::empty());
        while k < n
            invariant
                k <= n,
                n == labels@.len(),
                lv == labels_view(labels@),
                room >= 1,
                labels_ok(lv),
                fits ==> need == labels_wire(lv.take(k as int)).len() && need <= room,
                !fits ==> labels_wire(lv.take(k as int)).len() > room,
            decreases n - k,
        {
            let len = labels[k].len();
            proof {
                assert(lv[k as int].len() <= MAX_LABEL_LEN);
                let upto = lv.take(k + 1);
                assert(upto.drop_last() =~= lv.take(k as int));
                assert(upto.last() == lv[k as int]);
            }
            if fits && len + 1 <= room - need {
                need = need + len + 1;
            } else {
                fits = false;
            }
            k = k + 1;
        }
        assert(lv.take(n as int) =~= lv);
        if !fits {
            return Err(DnsError::OutOfBounds);
        }
        // Second pass: the bytes are laid down; none of the writes can fail now.
        let ghost before = self.buf@;
        let start = self.pos;
        let mut i: usize = 0;
        assert(self.buf@ =~= splice(before, start as int, labels_body(lv.take(0))));
        while i < n
            invariant
                i <= n,
                n == labels@.len(),
                lv == labels_view(labels@),
                labels_ok(lv),
                start == old(self).pos,
                before == old(self).buf@,
                size == before.len(),
                start + labels_wire(lv).len() <= size,
                labels_body(lv.take(i as int)).len() < labels_wire(lv).len(),
                self.pos == start + labels_body(lv.take(i as int)).len(),
                self.buf@ == splice(before, start as int, labels_body(lv.take(i as int))),
            decreases n - i,
        {
            let label = &labels[i];
            let len = label.len();
            proof {
                let upto = lv.take(i + 1);
                assert(upto.drop_last() =~= lv.take(i as int));
                assert(upto.last() == label@);
                lemma_body_prefix(lv, i + 1);
            }
            let ghost at_label = self.buf@;
            let ghost label_pos = self.pos as int;
            self.buf[self.pos] = len as u8;
            self.pos = self.pos + 1;
            let mut j: usize = 0;
            while j < len
                invariant
                    j <= len,
                    len == label@.len(),
                    label_pos + 1 + len <= size,
                    size == at_label.len(),
                    self.pos == label_pos + 1 + j,
                    self.buf@ == splice(
                        at_label,
                        label_pos,
                        seq![len as u8] + label@.take(j as int),
                    ),
                decreases len - j,
            {
                self.buf[self.pos] = label[j];
                self.pos = self.pos + 1;
                j = j + 1;
                assert(self.buf@ =~= splice(
                    at_label,
                    label_pos,
                    seq![len as u8] + label@.take(j as int),
                ));
            }
            proof {
                assert(label@.take(len as int) =~= label@);
                crate::buffer::lemma_splice_append(
                    before,
                    start as int,
                    labels_body(lv.take(i as int)),
                    seq![len as u8] + label@,
                );
                assert(labels_body(lv.take(i as int)) + (seq![len as u8] + label@) =~= labels_body(
                    lv.take(i + 1),
                ));
            }
            i = i + 1;
        }
        proof {
            assert(lv.take(n as int) =~= lv);
            crate::buffer::lemma_splice_append(before, start as int, labels_body(lv), seq![0u8]);
        }
        self.buf[self.pos] = 0;
        self.pos = self.pos + 1;
        assert(self.buf@ =~= splice(before, start as int, labels_wire(lv)));
        Ok(())
    }

    /// Reads the name at the cursor and appends its dotted text to `outstr`.
    ///
    /// Labels are joined by dots, each read as UTF-8 and put in lower case.
    /// The cursor ends behind the name, or behind the first pointer in it.
    /// On failure nothing changes.
    pub fn read_qname(&mut self, outstr: &mut String) -> (res: Result<(), DnsError>)
        ensures
            old(self).inv() ==> final(self).inv(),
            final(self).buf == old(self).buf,
            match res {
                Ok(()) => {
                    &&& parse_labels(old(self).buf@, old(self).pos as int, 0) matches Ok(labels)
                    &&& final(outstr)@ == old(outstr)@ + name_text(labels)
                    &&& final(self).pos == name_end(old(self).buf@, old(self).pos as int)
                    &&& final(self).pos <= old(self).buf@.len()
                },
                Err(e) => {
                    &&& parse_labels(old(self).buf@, old(self).pos as int, 0) == Err::<
                        Seq<Seq<u8>>,
                        DnsError,
                    >(e)
                    &&& final(self).pos == old(self).pos
                    &&& *final(outstr) == *old(outstr)
                },
            },
    {
        match self.read_labels() {
            Ok(labels) => {
                let texts = label_texts(&labels);
                let name = join_labels(&texts);
                outstr.append(name.as_str());
                Ok(())
            },
            Err(e) => Err(e),
        }
    }

    /// Writes a dotted name: each label behind its length byte, then a zero.
    ///
    /// No compression pointer is written. A label of more than 63 bytes is
    /// refused before anything is written, and so is a name for which the
    /// room does not suffice.
    pub fn write_qname(&mut self, qname: &str) -> (res: Result<(), DnsError>)
        ensures
            old(self).inv() ==> final(self).inv(),
            res is Ok <==> name_ok(qname@) && old(self).fits(name_wire(qname@)),
            res is Ok ==> old(self).wrote(final(self), name_wire(qname@)),
            res is Err ==> *final(self) == *old(self),
            res matches Err(e) ==> e == (if name_ok(qname@) {
                DnsError::OutOfBounds
            } else {
                DnsError::LabelTooLong
            }),
    {
        let labels = split_name(qname);
        self.write_labels(&labels)
    }
}

/// The body of the first `k` labels is shorter than the whole name on the wire.
pub proof fn lemma_body_prefix(labels: Seq<Seq<u8>>, k: int)
    requires
        0 <= k <= labels.len(),
    ensures
        labels_body(labels.take(k)).len() < labels_wire(labels).len(),
    decreases labels.len() - k,
{
    if k == labels.len() {
        assert(labels.take(k) =~= labels);
    } else {
        lemma_body_prefix(labels, k + 1);
        assert(labels.take(k + 1).drop_last() =~= labels.take(k));
    }
}

} // verus!

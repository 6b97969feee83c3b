//! Name compression on the encoding side: a writer that appends names
//! to a buffer, remembering the offset of every name and name suffix it
//! has written, and emitting a two-byte backward pointer instead of the
//! labels whenever a whole name was already written. Compression is a
//! pure size optimization: the contract guarantees that every appended
//! name parses back, from its own offset, to exactly the labels given —
//! so a decoder sees the same names whether or not pointers were used.
//!
//! Pointers can only address offsets below 0x4000 (the two tag bits take
//! the rest), so names written beyond that are recorded only as far as
//! the format can point at them.

use vstd::prelude::*;

use crate::codec_laws::lemma_enc_name_suffix;
use crate::codec_laws::lemma_labels_enc_len_split;
use crate::codec_laws::lemma_parse_enc_name;
use crate::codec_laws::lemma_parse_labels_stable;
use crate::error::DecodeErrorKind;
use crate::error::DnsError;
use crate::error::EncodeErrorKind;
use crate::message::Message;
use crate::message::MessageV;
use crate::message::Question;
use crate::message::Record;
use crate::message::message_wf;
use crate::name::DomainName;
use crate::name::label_wf;
use crate::name::labels_enc_len;
use crate::name::lemma_labels_enc_len_nonneg;
use crate::name::lemma_labels_enc_len_snoc;
use crate::name::name_enc_len;
use crate::name::name_wf;
use crate::wire::enc_labels;
use crate::wire::enc_name;
use crate::wire::lemma_enc_labels_snoc;
use crate::wire::parse_labels;
use crate::wire::spec_decode;

verus! {

/// A recorded occurrence: at `off` in `buf`, these labels parse back.
pub open spec fn entry_ok(buf: Seq<u8>, off: int, name: Seq<Seq<u8>>) -> bool {
    &&& 0 <= off < buf.len()
    &&& off < 0x4000
    &&& name.len() >= 1
    &&& name_wf(name)
    &&& parse_labels(buf, off, off, 0) is Ok
    &&& parse_labels(buf, off, off, 0)->Ok_0.0 == name
}

/// Appends names to a growing buffer, compressing repeated names into
/// backward pointers.
pub struct NameWriter {
    buf: Vec<u8>,
    table: Vec<(u16, DomainName)>,
}

impl View for NameWriter {
    type V = Seq<u8>;

    closed spec fn view(&self) -> Seq<u8> {
        self.buf@
    }
}

impl NameWriter {
    /// Every recorded occurrence really parses back to its name.
    pub closed spec fn wf(self) -> bool {
        forall|t: int|
            0 <= t < self.table@.len() ==> entry_ok(
                self.buf@,
                (#[trigger] self.table@[t]).0 as int,
                self.table@[t].1@,
            )
    }

    /// Whether some recorded occurrence holds exactly these labels: such
    /// a name will be compressed to a two-byte pointer when appended
    /// again. Every recorded occurrence sits below offset 0x4000.
    pub closed spec fn has_recorded(self, name: Seq<Seq<u8>>) -> bool {
        exists|t: int| 0 <= t < self.table@.len() && (#[trigger] self.table@[t]).1@ == name
    }

    /// An empty writer.
    pub fn new() -> (r: Self)
        ensures
            r@ == Seq::<u8>::empty(),
            r.wf(),
            forall|nm: Seq<Seq<u8>>| !(#[trigger] r.has_recorded(nm)),
    {
        let r = NameWriter { buf: Vec::new(), table: Vec::new() };
        proof {
            assert(r@ =~= Seq::<u8>::empty());
        }
        r
    }

    /// The bytes written so far.
    pub fn bytes(&self) -> (r: &Vec<u8>)
        ensures
            r@ == self@,
    {
        &self.buf
    }

    /// How many bytes have been written.
    pub fn len(&self) -> (r: usize)
        ensures
            r == self@.len(),
    {
        self.buf.len()
    }

    /// Appends raw bytes — header fields, type and class slots, record
    /// data. Recorded name occurrences survive any append.
    pub fn append_bytes(&mut self, bytes: &[u8])
        requires
            old(self).wf(),
        ensures
            final(self).wf(),
            final(self)@ == old(self)@ + bytes@,
            forall|nm: Seq<Seq<u8>>| #[trigger]
                final(self).has_recorded(nm) == old(self).has_recorded(nm),
    {
        let ghost oldb = self.buf@;
        let mut j: usize = 0;
        while j < bytes.len()
            invariant
                0 <= j <= bytes@.len(),
                self.table@ == old(self).table@,
                oldb == old(self).buf@,
                self.buf@ == oldb + bytes@.subrange(0, j as int),
            decreases bytes@.len() - j,
        {
            self.buf.push(bytes[j]);
            proof {
                assert(oldb + bytes@.subrange(0, j as int) + seq![bytes@[j as int]] =~= oldb
                    + bytes@.subrange(0, j + 1));
            }
            j = j + 1;
        }
        proof {
            assert(bytes@.subrange(0, bytes@.len() as int) =~= bytes@);
            assert(self.buf@ =~= oldb + bytes@);
            assert forall|u: int|
                0 <= u < self.table@.len() implies entry_ok(
                self.buf@,
                (#[trigger] self.table@[u]).0 as int,
                self.table@[u].1@,
            ) by {
                assert(entry_ok(oldb, self.table@[u].0 as int, self.table@[u].1@));
                lemma_parse_labels_stable(
                    oldb,
                    bytes@,
                    self.table@[u].0 as int,
                    self.table@[u].0 as int,
                    0,
                );
            }
            assert forall|nm: Seq<Seq<u8>>| #[trigger]
                self.has_recorded(nm) == old(self).has_recorded(nm) by {
                assert(self.table@ == old(self).table@);
                if self.has_recorded(nm) {
                    let w = choose|w: int|
                        0 <= w < self.table@.len() && (#[trigger] self.table@[w]).1@ == nm;
                    assert(old(self).table@[w].1@ == nm);
                }
                if old(self).has_recorded(nm) {
                    let w = choose|w: int|
                        0 <= w < old(self).table@.len() && (#[trigger] old(
                            self,
                        ).table@[w]).1@ == nm;
                    assert(self.table@[w].1@ == nm);
                }
            }
        }
    }

    /// Appends one 16-bit value big-endian.
    pub fn append_u16(&mut self, v: u16)
        requires
            old(self).wf(),
        ensures
            final(self).wf(),
            final(self)@ == old(self)@ + crate::wire::enc_u16(v as int),
            forall|nm: Seq<Seq<u8>>| #[trigger]
                final(self).has_recorded(nm) == old(self).has_recorded(nm),
    {
        let ghost oldb = self.buf@;
        self.buf.push((v / 256) as u8);
        self.buf.push((v % 256) as u8);
        proof {
            let ext = crate::wire::enc_u16(v as int);
            assert(self.buf@ =~= oldb + ext);
            assert forall|u: int|
                0 <= u < self.table@.len() implies entry_ok(
                self.buf@,
                (#[trigger] self.table@[u]).0 as int,
                self.table@[u].1@,
            ) by {
                assert(entry_ok(oldb, self.table@[u].0 as int, self.table@[u].1@));
                lemma_parse_labels_stable(
                    oldb,
                    ext,
                    self.table@[u].0 as int,
                    self.table@[u].0 as int,
                    0,
                );
            }
            assert forall|nm: Seq<Seq<u8>>| #[trigger]
                self.has_recorded(nm) == old(self).has_recorded(nm) by {
                assert(self.table@ == old(self).table@);
                if self.has_recorded(nm) {
                    let w = choose|w: int|
                        0 <= w < self.table@.len() && (#[trigger] self.table@[w]).1@ == nm;
                    assert(old(self).table@[w].1@ == nm);
                }
                if old(self).has_recorded(nm) {
                    let w = choose|w: int|
                        0 <= w < old(self).table@.len() && (#[trigger] old(
                            self,
                        ).table@[w]).1@ == nm;
                    assert(self.table@[w].1@ == nm);
                }
            }
        }
    }

    /// Appends one 32-bit value big-endian.
    pub fn append_u32(&mut self, v: u32)
        requires
            old(self).wf(),
        ensures
            final(self).wf(),
            final(self)@ == old(self)@ + crate::wire::enc_u32(v),
            forall|nm: Seq<Seq<u8>>| #[trigger]
                final(self).has_recorded(nm) == old(self).has_recorded(nm),
    {
        let ghost oldb = self.buf@;
        self.buf.push((v / 0x1000000) as u8);
        self.buf.push(((v / 0x10000) % 256) as u8);
        self.buf.push(((v / 256) % 256) as u8);
        self.buf.push((v % 256) as u8);
        proof {
            let ext = crate::wire::enc_u32(v);
            assert(self.buf@ =~= oldb + ext);
            assert forall|u: int|
                0 <= u < self.table@.len() implies entry_ok(
                self.buf@,
                (#[trigger] self.table@[u]).0 as int,
                self.table@[u].1@,
            ) by {
                assert(entry_ok(oldb, self.table@[u].0 as int, self.table@[u].1@));
                lemma_parse_labels_stable(
                    oldb,
                    ext,
                    self.table@[u].0 as int,
                    self.table@[u].0 as int,
                    0,
                );
            }
            assert forall|nm: Seq<Seq<u8>>| #[trigger]
                self.has_recorded(nm) == old(self).has_recorded(nm) by {
                assert(self.table@ == old(self).table@);
                if self.has_recorded(nm) {
                    let w = choose|w: int|
                        0 <= w < self.table@.len() && (#[trigger] self.table@[w]).1@ == nm;
                    assert(old(self).table@[w].1@ == nm);
                }
                if old(self).has_recorded(nm) {
                    let w = choose|w: int|
                        0 <= w < old(self).table@.len() && (#[trigger] old(
                            self,
                        ).table@[w]).1@ == nm;
                    assert(self.table@[w].1@ == nm);
                }
            }
        }
    }

    /// Gives up the writer for the bytes it built.
    pub fn into_bytes(self) -> (r: Vec<u8>)
        ensures
            r@ == self@,
    {
        self.buf
    }

    /// Appends one name, compressed to a backward pointer when the same
    /// name was recorded before: a recorded name appends exactly two
    /// bytes, an unrecorded one exactly its uncompressed wire length,
    /// and either way the name parses back at its own offset consuming
    /// exactly the appended bytes. An unrecorded name written below
    /// offset 0x4000 is recorded, together with each of its suffixes
    /// the format can still point at; earlier recordings persist. Fails
    /// exactly on names violating a wire bound, leaving the buffer
    /// unchanged.
    pub fn append_name(&mut self, name: &DomainName) -> (r: Result<(), EncodeErrorKind>)
        requires
            old(self).wf(),
        ensures
            final(self).wf(),
            r is Ok <==> name_wf(name@),
            r is Err ==> final(self)@ == old(self)@,
            r is Ok ==> {
                &&& old(self)@.len() < final(self)@.len()
                &&& final(self)@.subrange(0, old(self)@.len() as int) == old(self)@
                &&& final(self)@.len() - old(self)@.len() <= name_enc_len(name@)
                &&& parse_labels(final(self)@, old(self)@.len() as int, old(self)@.len() as int, 0)
                    == Result::<(Seq<Seq<u8>>, int), DecodeErrorKind>::Ok(
                    (name@, final(self)@.len() as int),
                )
            },
            r is Ok && old(self).has_recorded(name@) ==> final(self)@.len() - old(self)@.len()
                == 2,
            r is Ok && !old(self).has_recorded(name@) ==> final(self)@.len() - old(self)@.len()
                == name_enc_len(name@),
            r is Ok ==> forall|nm: Seq<Seq<u8>>|
                old(self).has_recorded(nm) ==> #[trigger] final(self).has_recorded(nm),
            r is Ok && !old(self).has_recorded(name@) ==> forall|i: int|
                #![trigger name@.subrange(i, name@.len() as int)]
                0 <= i < name@.len() && old(self)@.len() + labels_enc_len(name@.subrange(0, i))
                    < 0x4000 ==> final(self).has_recorded(name@.subrange(i, name@.len() as int)),
    {
        match name.check_wire_bounds() {
            Ok(()) => {},
            Err(k) => {
                return Err(k);
            },
        }
        let start = self.buf.len();
        if name.label_count() >= 1 {
            let tn = self.table.len();
            let mut t: usize = 0;
            while t < tn
                invariant
                    0 <= t <= tn,
                    *self == *old(self),
                    old(self).wf(),
                    tn == self.table@.len(),
                    start == self.buf@.len(),
                    name_wf(name@),
                    name@.len() >= 1,
                    forall|j: int| 0 <= j < t ==> (#[trigger] self.table@[j]).1@ != name@,
                decreases tn - t,
            {
                if name.eq_bytes(&self.table[t].1) {
                    let ghost oldb = self.buf@;
                    let off_val: u16 = self.table[t].0;
                    proof {
                        assert(entry_ok(oldb, off_val as int, self.table@[t as int].1@));
                    }
                    let hi: u8 = 192 + (off_val / 256) as u8;
                    let lo: u8 = (off_val % 256) as u8;
                    self.buf.push(hi);
                    self.buf.push(lo);
                    proof {
                        let ext = seq![hi, lo];
                        let newb = self.buf@;
                        assert(newb =~= oldb + ext);
                        // Every recorded occurrence survives the append.
                        assert forall|u: int|
                            0 <= u < self.table@.len() implies entry_ok(
                            newb,
                            (#[trigger] self.table@[u]).0 as int,
                            self.table@[u].1@,
                        ) by {
                            lemma_parse_labels_stable(
                                oldb,
                                ext,
                                self.table@[u].0 as int,
                                self.table@[u].0 as int,
                                0,
                            );
                        }
                        // The pointer parses back to the recorded name.
                        let off = off_val as int;
                        vstd::arithmetic::div_mod::lemma_fundamental_div_mod(off, 256);
                        assert(newb[start as int] == hi);
                        assert(newb[start + 1] == lo);
                        assert(hi as int == 192 + off / 256);
                        assert((hi as int - 192) * 256 + lo as int == off);
                        lemma_parse_labels_stable(oldb, ext, off, off, 0);
                        assert(parse_labels(newb, start as int, start as int, 0) == Result::<
                            (Seq<Seq<u8>>, int),
                            DecodeErrorKind,
                        >::Ok((name@, start + 2)));
                        // Two pointer bytes never exceed the name's own image.
                        assert(labels_enc_len(name@) == 1 + name@[0].len() + labels_enc_len(
                            name@.subrange(1, name@.len() as int),
                        ));
                        lemma_labels_enc_len_nonneg(name@.subrange(1, name@.len() as int));
                        assert(label_wf(name@[0]));
                        assert(newb.subrange(0, start as int) =~= oldb);
                        // The matched entry witnesses that the name was
                        // recorded, and the untouched table keeps every
                        // recording.
                        assert(old(self).table@[t as int].1@ == name@);
                        assert(old(self).has_recorded(name@));
                        assert forall|nm: Seq<Seq<u8>>|
                            old(self).has_recorded(nm) implies #[trigger] self.has_recorded(
                            nm,
                        ) by {
                            let w = choose|w: int|
                                0 <= w < old(self).table@.len() && (#[trigger] old(
                                    self,
                                ).table@[w]).1@ == nm;
                            assert(self.table@[w].1@ == nm);
                        }
                    }
                    return Ok(());
                }
                t = t + 1;
            }
        }
        // No earlier occurrence: a scanned table held no match, and an
        // empty name can never be recorded (every entry has a label).
        proof {
            assert(!old(self).has_recorded(name@)) by {
                if old(self).has_recorded(name@) {
                    let w = choose|w: int|
                        0 <= w < old(self).table@.len() && (#[trigger] old(
                            self,
                        ).table@[w]).1@ == name@;
                    assert(entry_ok(old(self).buf@, old(self).table@[w].0 as int, name@));
                    assert(name@.len() >= 1);
                    assert(old(self).table@[w].1@ != name@);
                }
            }
        }
        // Emit the labels, then record every suffix the format could
        // point at later.
        let ghost oldb = self.buf@;
        let n = name.label_count();
        let mut i: usize = 0;
        proof {
            assert(name@.subrange(0, 0) =~= Seq::<Seq<u8>>::empty());
            assert(oldb + enc_labels(name@.subrange(0, 0)) =~= oldb);
        }
        while i < n
            invariant
                0 <= i <= n,
                n == name@.len(),
                name_wf(name@),
                self.table@ == old(self).table@,
                old(self).wf(),
                oldb == old(self).buf@,
                self.buf@ == oldb + enc_labels(name@.subrange(0, i as int)),
            decreases n - i,
        {
            let l = name.label_at(i);
            let ghost mid = self.buf@;
            proof {
                assert(label_wf(name@[i as int]));
            }
            self.buf.push(l.len() as u8);
            let mut j: usize = 0;
            while j < l.len()
                invariant
                    0 <= j <= l@.len(),
                    l@ == name@[i as int],
                    i < name@.len(),
                    name_wf(name@),
                    self.table@ == old(self).table@,
                    self.buf@ == mid + seq![l@.len() as u8] + l@.subrange(0, j as int),
                decreases l@.len() - j,
            {
                self.buf.push(l[j]);
                proof {
                    assert(mid + seq![l@.len() as u8] + l@.subrange(0, j as int) + seq![
                        l@[j as int],
                    ] =~= mid + seq![l@.len() as u8] + l@.subrange(0, j + 1));
                }
                j = j + 1;
            }
            proof {
                assert(l@.subrange(0, l@.len() as int) =~= l@);
                lemma_enc_labels_snoc(name@, i as int);
                assert(mid + seq![l@.len() as u8] + l@ =~= oldb + (enc_labels(
                    name@.subrange(0, i as int),
                ) + seq![name@[i as int].len() as u8] + name@[i as int]));
            }
            i = i + 1;
        }
        self.buf.push(0);
        let ghost newb = self.buf@;
        proof {
            assert(name@.subrange(0, n as int) =~= name@);
            assert(newb =~= oldb + enc_name(name@));
            crate::codec_laws::lemma_enc_name_len(name@);
            lemma_labels_enc_len_nonneg(name@);
            assert(newb.subrange(start as int, newb.len() as int) =~= enc_name(name@));
            lemma_parse_enc_name(newb, start as int, start as int, 0, name@);
            // Every recorded occurrence survives the append.
            assert forall|u: int|
                0 <= u < self.table@.len() implies entry_ok(
                newb,
                (#[trigger] self.table@[u]).0 as int,
                self.table@[u].1@,
            ) by {
                lemma_parse_labels_stable(
                    oldb,
                    enc_name(name@),
                    self.table@[u].0 as int,
                    self.table@[u].0 as int,
                    0,
                );
            }
            assert(newb.subrange(0, start as int) =~= oldb);
        }
        // Record the offsets of the name and of each of its suffixes.
        let total_len = self.buf.len();
        let mut off: usize = start;
        let mut i: usize = 0;
        while i < n
            invariant
                0 <= i <= n,
                n == name@.len(),
                name_wf(name@),
                start == oldb.len(),
                newb == oldb + enc_name(name@),
                self.buf@ == newb,
                total_len == newb.len(),
                total_len == start + name_enc_len(name@),
                off == start + labels_enc_len(name@.subrange(0, i as int)),
                off <= start + labels_enc_len(name@),
                parse_labels(newb, start as int, start as int, 0) == Result::<
                    (Seq<Seq<u8>>, int),
                    DecodeErrorKind,
                >::Ok((name@, newb.len() as int)),
                forall|t: int|
                    0 <= t < self.table@.len() ==> entry_ok(
                        newb,
                        (#[trigger] self.table@[t]).0 as int,
                        self.table@[t].1@,
                    ),
                old(self).table@.len() <= self.table@.len(),
                forall|j: int|
                    0 <= j < old(self).table@.len() ==> #[trigger] self.table@[j] == old(
                        self,
                    ).table@[j],
                forall|i2: int|
                    #![trigger name@.subrange(i2, n as int)]
                    0 <= i2 < i && start + labels_enc_len(name@.subrange(0, i2)) < 0x4000
                        ==> exists|w: int|
                        0 <= w < self.table@.len() && (#[trigger] self.table@[w]).1@
                            == name@.subrange(i2, n as int),
            decreases n - i,
        {
            let ghost tab0 = self.table@;
            proof {
                lemma_labels_enc_len_split(name@, i as int);
                lemma_labels_enc_len_nonneg(name@.subrange(i as int, n as int));
                lemma_labels_enc_len_nonneg(name@.subrange(0, i as int));
            }
            if off < 0x4000 {
                let sfx = name.suffix(i);
                let ghost sv = sfx@;
                proof {
                    // The suffix is itself well formed ...
                    assert forall|j: int| 0 <= j < sv.len() implies label_wf(#[trigger] sv[j]) by {
                        assert(sv[j] == name@[i + j]);
                    }
                    assert(name_enc_len(sv) <= name_enc_len(name@));
                    // ... and its image sits at `off` inside the name's image.
                    lemma_enc_name_suffix(name@, i as int);
                    crate::codec_laws::lemma_enc_name_len(sv);
                    crate::codec_laws::lemma_enc_name_len(name@);
                    let pl = labels_enc_len(name@.subrange(0, i as int));
                    assert forall|u: int|
                        0 <= u < enc_name(sv).len() implies newb[off + u] == #[trigger] enc_name(
                        sv,
                    )[u] by {
                        assert(enc_name(sv)[u] == enc_name(name@).subrange(
                            pl,
                            enc_name(name@).len() as int,
                        )[u]);
                        assert(enc_name(name@)[pl + u] == newb[start + (pl + u)]);
                    }
                    assert(newb.subrange(off as int, off + enc_name(sv).len()) =~= enc_name(sv));
                    lemma_parse_enc_name(newb, off as int, off as int, 0, sv);
                }
                let ghost tbefore = self.table@;
                self.table.push((off as u16, sfx));
                proof {
                    assert forall|t: int|
                        0 <= t < self.table@.len() implies entry_ok(
                        newb,
                        (#[trigger] self.table@[t]).0 as int,
                        self.table@[t].1@,
                    ) by {
                        if t < tbefore.len() {
                            assert(self.table@[t] == tbefore[t]);
                        } else {
                            assert(self.table@[t].1@ == sv);
                        }
                    }
                    // Coverage grows by exactly this suffix.
                    assert(self.table@[self.table@.len() - 1].1@ == name@.subrange(
                        i as int,
                        n as int,
                    ));
                    assert forall|i2: int|
                        #![trigger name@.subrange(i2, n as int)]
                        0 <= i2 < i + 1 && start + labels_enc_len(name@.subrange(0, i2))
                            < 0x4000 implies exists|w: int|
                        0 <= w < self.table@.len() && (#[trigger] self.table@[w]).1@
                            == name@.subrange(i2, n as int) by {
                        if i2 == i as int {
                            assert(self.table@[self.table@.len() - 1].1@ == name@.subrange(
                                i2,
                                n as int,
                            ));
                        } else {
                            let w = choose|w: int|
                                0 <= w < tbefore.len() && (#[trigger] tbefore[w]).1@
                                    == name@.subrange(i2, n as int);
                            assert(self.table@[w].1@ == name@.subrange(i2, n as int));
                        }
                    }
                }
            }
            let l = name.label_at(i);
            proof {
                lemma_labels_enc_len_snoc(name@, i as int);
                crate::name::lemma_labels_enc_len_prefix_bound(name@, i as int + 1);
                assert(label_wf(name@[i as int]));
                assert(off + 1 + l@.len() == start + labels_enc_len(name@.subrange(0, i + 1)));
                assert(off + 1 + l@.len() <= start + labels_enc_len(name@));
            }
            off = off + 1 + l.len();
            i = i + 1;
            proof {
                assert forall|i2: int|
                    #![trigger name@.subrange(i2, n as int)]
                    0 <= i2 < i && start + labels_enc_len(name@.subrange(0, i2))
                        < 0x4000 implies exists|w: int|
                    0 <= w < self.table@.len() && (#[trigger] self.table@[w]).1@
                        == name@.subrange(i2, n as int) by {
                    if i2 < i - 1 {
                        let w = choose|w: int|
                            0 <= w < tab0.len() && (#[trigger] tab0[w]).1@ == name@.subrange(
                                i2,
                                n as int,
                            );
                        assert(self.table@[w] == tab0[w]);
                        assert(self.table@[w].1@ == name@.subrange(i2, n as int));
                    } else {
                        assert(i2 == i - 1);
                    }
                }
            }
        }
        proof {
            // Earlier recordings persist under the pushes, and every
            // suffix the format can point at is now recorded.
            assert forall|nm: Seq<Seq<u8>>|
                old(self).has_recorded(nm) implies #[trigger] self.has_recorded(nm) by {
                let w = choose|w: int|
                    0 <= w < old(self).table@.len() && (#[trigger] old(self).table@[w]).1@ == nm;
                assert(self.table@[w].1@ == nm);
            }
            assert forall|i2: int|
                #![trigger name@.subrange(i2, name@.len() as int)]
                0 <= i2 < name@.len() && oldb.len() + labels_enc_len(name@.subrange(0, i2))
                    < 0x4000 implies self.has_recorded(
                name@.subrange(i2, name@.len() as int),
            ) by {
                assert(name@.subrange(i2, n as int) == name@.subrange(i2, name@.len() as int));
            }
        }
        Ok(())
    }
}

/// Byte-exact equality, sound direction: true only on equal contents.
fn bytes_eq(a: &Vec<u8>, b: &Vec<u8>) -> (r: bool)
    ensures
        r ==> a@ == b@,
{
    if a.len() != b.len() {
        return false;
    }
    let n = a.len();
    let mut i: usize = 0;
    while i < n
        invariant
            0 <= i <= n,
            n == a@.len(),
            n == b@.len(),
            forall|j: int| 0 <= j < i ==> a@[j] == b@[j],
        decreases n - i,
    {
        if a[i] != b[i] {
            return false;
        }
        i = i + 1;
    }
    proof {
        assert(a@ =~= b@);
    }
    true
}

/// Question equality, sound direction.
fn question_eq(a: &Question, b: &Question) -> (r: bool)
    ensures
        r ==> a@ == b@,
{
    let r = a.name.eq_bytes(&b.name) && a.qtype == b.qtype && a.qclass == b.qclass;
    proof {
        if r {
            assert(a@ =~= b@);
        }
    }
    r
}

/// Record equality, sound direction.
fn record_eq(a: &Record, b: &Record) -> (r: bool)
    ensures
        r ==> a@ == b@,
{
    let r = a.name.eq_bytes(&b.name) && a.rtype == b.rtype && a.rclass == b.rclass && a.ttl
        == b.ttl && bytes_eq(&a.rdata, &b.rdata);
    proof {
        if r {
            assert(a@ =~= b@);
        }
    }
    r
}

/// Record-section equality, sound direction.
fn records_eq(a: &Vec<Record>, b: &Vec<Record>) -> (r: bool)
    ensures
        r ==> a@.map_values(|x: Record| x@) == b@.map_values(|x: Record| x@),
{
    if a.len() != b.len() {
        return false;
    }
    let n = a.len();
    let mut i: usize = 0;
    while i < n
        invariant
            0 <= i <= n,
            n == a@.len(),
            n == b@.len(),
            forall|j: int| 0 <= j < i ==> #[trigger] a@[j]@ == b@[j]@,
        decreases n - i,
    {
        if !record_eq(&a[i], &b[i]) {
            return false;
        }
        i = i + 1;
    }
    proof {
        assert(a@.map_values(|x: Record| x@) =~= b@.map_values(|x: Record| x@));
    }
    true
}

/// Whole-message equality, sound direction: used as the encoder's
/// self-check, so only "true implies equal" is needed.
fn message_eq(a: &Message, b: &Message) -> (r: bool)
    ensures
        r ==> a@ == b@,
{
    if !(a.header == b.header) {
        return false;
    }
    if a.questions.len() != b.questions.len() {
        return false;
    }
    let n = a.questions.len();
    let mut i: usize = 0;
    while i < n
        invariant
            0 <= i <= n,
            n == a@.questions.len(),
            n == b@.questions.len(),
            forall|j: int| 0 <= j < i ==> #[trigger] a.questions@[j]@ == b.questions@[j]@,
        decreases n - i,
    {
        if !question_eq(&a.questions[i], &b.questions[i]) {
            return false;
        }
        i = i + 1;
    }
    let r = records_eq(&a.answers, &b.answers) && records_eq(&a.authorities, &b.authorities)
        && records_eq(&a.additionals, &b.additionals);
    proof {
        if r {
            assert(a@.questions =~= b@.questions);
            assert(a@ =~= b@);
        }
    }
    r
}

/// Builds the compressed wire image of a well-formed message: header,
/// then each section with its names run through the writer. Its output
/// is checked against the decoder by [`encode_compressed`]; nothing
/// more is claimed here.
fn build_compressed(m: &Message) -> Vec<u8>
    requires
        message_wf(m@),
{
    let mut w = NameWriter::new();
    w.append_u16(m.header.id);
    let hi: u8 = (if m.header.response {
        128u8
    } else {
        0u8
    }) + m.header.opcode * 8 + (if m.header.authoritative {
        4u8
    } else {
        0u8
    }) + (if m.header.truncated {
        2u8
    } else {
        0u8
    }) + (if m.header.recursion_desired {
        1u8
    } else {
        0u8
    });
    let lo: u8 = (if m.header.recursion_available {
        128u8
    } else {
        0u8
    }) + m.header.rcode;
    let flags: [u8; 2] = [hi, lo];
    w.append_bytes(&flags);
    w.append_u16(m.questions.len() as u16);
    w.append_u16(m.answers.len() as u16);
    w.append_u16(m.authorities.len() as u16);
    w.append_u16(m.additionals.len() as u16);
    let mut i: usize = 0;
    while i < m.questions.len()
        invariant
            message_wf(m@),
            w.wf(),
        decreases m@.questions.len() - i,
    {
        let q = &m.questions[i];
        match w.append_name(&q.name) {
            Ok(()) => {},
            Err(_) => {
                proof {
                    assert(crate::message::question_wf(m@.questions[i as int]));
                    assert(false);
                }
            },
        }
        w.append_u16(q.qtype);
        w.append_u16(q.qclass);
        i = i + 1;
    }
    let mut i: usize = 0;
    while i < m.answers.len()
        invariant
            message_wf(m@),
            w.wf(),
        decreases m@.answers.len() - i,
    {
        proof {
            assert(crate::message::record_wf(m@.answers[i as int]));
        }
        put_record_compressed(&mut w, &m.answers[i]);
        i = i + 1;
    }
    let mut i: usize = 0;
    while i < m.authorities.len()
        invariant
            message_wf(m@),
            w.wf(),
        decreases m@.authorities.len() - i,
    {
        proof {
            assert(crate::message::record_wf(m@.authorities[i as int]));
        }
        put_record_compressed(&mut w, &m.authorities[i]);
        i = i + 1;
    }
    let mut i: usize = 0;
    while i < m.additionals.len()
        invariant
            message_wf(m@),
            w.wf(),
        decreases m@.additionals.len() - i,
    {
        proof {
            assert(crate::message::record_wf(m@.additionals[i as int]));
        }
        put_record_compressed(&mut w, &m.additionals[i]);
        i = i + 1;
    }
    w.into_bytes()
}

/// Appends one well-formed record with its name compressed.
fn put_record_compressed(w: &mut NameWriter, rec: &Record)
    requires
        old(w).wf(),
        crate::message::record_wf(rec@),
    ensures
        final(w).wf(),
{
    match w.append_name(&rec.name) {
        Ok(()) => {},
        Err(_) => {
            proof {
                assert(false);
            }
        },
    }
    w.append_u16(rec.rtype);
    w.append_u16(rec.rclass);
    w.append_u32(rec.ttl);
    w.append_u16(rec.rdata.len() as u16);
    w.append_bytes(rec.rdata.as_slice());
}

/// Encodes a message with name compression applied. Same contract as
/// the canonical encoder, stated against the decoder: success exactly
/// on well-formed messages, and the output decodes back to the message.
/// The compressed image is checked through the verified decoder;
/// should that check ever fail, the canonical uncompressed image —
/// whose round trip is a theorem — is returned instead, so the
/// contract holds either way and compression stays a pure size
/// optimization.
pub fn encode_compressed(m: &Message) -> (r: Result<Vec<u8>, DnsError>)
    ensures
        r is Ok <==> message_wf(m@),
        r is Ok ==> spec_decode(r->Ok_0@) == Result::<MessageV, DecodeErrorKind>::Ok(m@),
        r is Err ==> (r->Err_0 matches DnsError::Encode(_)),
{
    let plain = match crate::encode::encode(m) {
        Ok(b) => b,
        Err(e) => {
            return Err(e);
        },
    };
    let candidate = build_compressed(m);
    let keep = match crate::decode::decode(candidate.as_slice()) {
        Ok(back) => message_eq(&back, m),
        Err(_) => false,
    };
    if keep {
        return Ok(candidate);
    }
    proof {
        crate::codec_laws::theorem_encode_decode(m@);
    }
    Ok(plain)
}

} // verus!

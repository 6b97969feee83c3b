//! Domain names: ordered label sequences with the wire-format bounds and
//! the case-insensitive equality rule used to match answers to questions.

use vstd::prelude::*;

verus! {

/// Longest permitted label, in octets.
pub const MAX_LABEL_LEN: usize = 63;

/// Longest permitted name in wire form, length prefixes and root included.
pub const MAX_NAME_LEN: usize = 255;

/// A label is well formed when it is non-empty and at most 63 octets.
pub open spec fn label_wf(l: Seq<u8>) -> bool {
    1 <= l.len() <= 63
}

/// Wire length of a label sequence: one length octet per label plus its
/// octets; the terminating root octet is not counted here.
pub open spec fn labels_enc_len(ls: Seq<Seq<u8>>) -> int
    decreases ls.len(),
{
    if ls.len() == 0 {
        0
    } else {
        1 + ls[0].len() + labels_enc_len(ls.subrange(1, ls.len() as int))
    }
}

/// Wire length of a whole name, terminating root octet included.
pub open spec fn name_enc_len(ls: Seq<Seq<u8>>) -> int {
    labels_enc_len(ls) + 1
}

/// A name is well formed when every label is, and the whole name fits in
/// 255 octets of wire form.
pub open spec fn name_wf(ls: Seq<Seq<u8>>) -> bool {
    &&& forall|i: int| 0 <= i < ls.len() ==> label_wf(#[trigger] ls[i])
    &&& name_enc_len(ls) <= 255
}

/// ASCII lowercase folding, the character rule behind name equality.
pub open spec fn ascii_lower(b: u8) -> u8 {
    if 65 <= b <= 90 {
        (b + 32) as u8
    } else {
        b
    }
}

/// Two labels are equal up to ASCII case.
pub open spec fn label_eq_ci(a: Seq<u8>, b: Seq<u8>) -> bool {
    a.len() == b.len() && forall|i: int|
        0 <= i < a.len() ==> ascii_lower(#[trigger] a[i]) == ascii_lower(#[trigger] b[i])
}

/// Two names are equal up to ASCII case, label by label.
pub open spec fn name_eq_ci(a: Seq<Seq<u8>>, b: Seq<Seq<u8>>) -> bool {
    a.len() == b.len() && forall|i: int| 0 <= i < a.len() ==> label_eq_ci(#[trigger] a[i], b[i])
}

/// A domain name: an ordered sequence of labels, the root label left
/// implicit. Compare names with [`DomainName::eq_ignore_case`]: on the
/// wire, names differing only in ASCII case denote the same name.
#[derive(Clone, Debug)]
pub struct DomainName {
    labels: Vec<Vec<u8>>,
}

impl View for DomainName {
    type V = Seq<Seq<u8>>;

    closed spec fn view(&self) -> Seq<Seq<u8>> {
        self.labels@.map_values(|l: Vec<u8>| l@)
    }
}

impl DomainName {
    /// The name with no labels: the DNS root.
    pub fn root() -> (r: Self)
        ensures
            r@ == Seq::<Seq<u8>>::empty(),
            name_wf(r@),
    {
        let r = DomainName { labels: Vec::new() };
        proof {
            assert(r@ =~= Seq::<Seq<u8>>::empty());
        }
        r
    }

    /// Builds a name from raw labels, rejecting any that violates a wire
    /// bound: an empty or over-long label, or a name over 255 octets.
    pub fn from_labels(labels: Vec<Vec<u8>>) -> (r: Option<Self>)
        ensures
            r is Some <==> name_wf(labels@.map_values(|l: Vec<u8>| l@)),
            r is Some ==> r->Some_0@ == labels@.map_values(|l: Vec<u8>| l@),
    {
        let ghost view: Seq<Seq<u8>> = labels@.map_values(|l: Vec<u8>| l@);
        let mut total: usize = 1;
        let mut i: usize = 0;
        while i < labels.len()
            invariant
                0 <= i <= labels.len(),
                view == labels@.map_values(|l: Vec<u8>| l@),
                view.len() == labels.len(),
                forall|j: int| 0 <= j < i ==> label_wf(#[trigger] view[j]),
                total == 1 + labels_enc_len(view.subrange(0, i as int)),
                total <= 255,
            decreases labels.len() - i,
        {
            let l = &labels[i];
            if l.len() == 0 || l.len() > MAX_LABEL_LEN {
                proof {
                    assert(!label_wf(view[i as int]));
                }
                return None;
            }
            if total + 1 + l.len() > MAX_NAME_LEN {
                proof {
                    lemma_labels_enc_len_snoc(view, i as int);
                    lemma_labels_enc_len_prefix_bound(view, i as int + 1);
                }
                return None;
            }
            total = total + 1 + l.len();
            proof {
                lemma_labels_enc_len_snoc(view, i as int);
            }
            i = i + 1;
        }
        proof {
            assert(view.subrange(0, view.len() as int) =~= view);
        }
        Some(DomainName { labels })
    }

    /// How many labels the name has.
    pub fn label_count(&self) -> (r: usize)
        ensures
            r == self@.len(),
    {
        self.labels.len()
    }

    /// The label at a given position.
    pub fn label_at(&self, i: usize) -> (r: &Vec<u8>)
        requires
            i < self@.len(),
        ensures
            r@ == self@[i as int],
    {
        &self.labels[i]
    }

    /// Whether the name obeys every wire bound, with the violated bound
    /// on failure: exactly the names the encoders accept.
    pub fn check_wire_bounds(&self) -> (r: Result<(), crate::error::EncodeErrorKind>)
        ensures
            r is Ok <==> name_wf(self@),
    {
        let n = self.labels.len();
        let mut total: usize = 1;
        let mut i: usize = 0;
        while i < n
            invariant
                0 <= i <= n,
                n == self@.len(),
                forall|j: int| 0 <= j < i ==> label_wf(#[trigger] self@[j]),
                total == 1 + labels_enc_len(self@.subrange(0, i as int)),
                total <= 255,
            decreases n - i,
        {
            let l = &self.labels[i];
            if l.len() == 0 || l.len() > MAX_LABEL_LEN {
                proof {
                    assert(!label_wf(self@[i as int]));
                }
                return Err(crate::error::EncodeErrorKind::BadLabel);
            }
            if total + 1 + l.len() > MAX_NAME_LEN {
                proof {
                    lemma_labels_enc_len_snoc(self@, i as int);
                    lemma_labels_enc_len_prefix_bound(self@, i as int + 1);
                }
                return Err(crate::error::EncodeErrorKind::NameTooLong);
            }
            total = total + 1 + l.len();
            proof {
                lemma_labels_enc_len_snoc(self@, i as int);
            }
            i = i + 1;
        }
        proof {
            assert(self@.subrange(0, n as int) =~= self@);
        }
        Ok(())
    }

    /// The name formed by dropping the first `i` labels.
    pub fn suffix(&self, i: usize) -> (r: Self)
        requires
            i <= self@.len(),
        ensures
            r@ == self@.subrange(i as int, self@.len() as int),
    {
        let n = self.labels.len();
        let mut labels: Vec<Vec<u8>> = Vec::new();
        let mut k: usize = i;
        proof {
            assert(labels@.map_values(|x: Vec<u8>| x@) =~= self@.subrange(i as int, i as int));
        }
        while k < n
            invariant
                i <= k <= n,
                n == self@.len(),
                labels@.map_values(|x: Vec<u8>| x@) == self@.subrange(i as int, k as int),
            decreases n - k,
        {
            let src = &self.labels[k];
            let mut l: Vec<u8> = Vec::new();
            let mut j: usize = 0;
            while j < src.len()
                invariant
                    0 <= j <= src@.len(),
                    l@ =~= src@.subrange(0, j as int),
                decreases src@.len() - j,
            {
                l.push(src[j]);
                proof {
                    assert(l@ =~= src@.subrange(0, j + 1));
                }
                j = j + 1;
            }
            proof {
                assert(src@.subrange(0, src@.len() as int) =~= src@);
            }
            let ghost prev = labels@;
            let ghost lv = l@;
            labels.push(l);
            proof {
                assert(lv == self@[k as int]);
                prev.lemma_push_map_commute(|x: Vec<u8>| x@, l);
                assert(labels@.map_values(|x: Vec<u8>| x@) =~= self@.subrange(i as int, k + 1));
            }
            k = k + 1;
        }
        DomainName { labels }
    }

    /// Byte-exact equality of the label sequences — stricter than the
    /// case-insensitive matching rule; it is what name compression uses,
    /// since a pointer reuses the earlier occurrence's exact bytes.
    pub fn eq_bytes(&self, other: &Self) -> (r: bool)
        ensures
            r == (self@ == other@),
    {
        if self.labels.len() != other.labels.len() {
            proof {
                assert(self@.len() != other@.len());
            }
            return false;
        }
        let n = self.labels.len();
        let mut i: usize = 0;
        while i < n
            invariant
                0 <= i <= n,
                n == self@.len(),
                n == other@.len(),
                forall|j: int| 0 <= j < i ==> self@[j] == other@[j],
            decreases n - i,
        {
            if !label_bytes_eq(&self.labels[i], &other.labels[i]) {
                proof {
                    assert(self@[i as int] != other@[i as int]);
                }
                return false;
            }
            i = i + 1;
        }
        proof {
            assert(self@ =~= other@);
        }
        true
    }

    /// An owned copy holding the same labels.
    pub fn clone_name(&self) -> (r: Self)
        ensures
            r@ == self@,
    {
        let r = self.suffix(0);
        proof {
            assert(self@.subrange(0, self@.len() as int) =~= self@);
        }
        r
    }

    /// Case-insensitive equality: the rule by which a response's question
    /// name is compared with the pending request's.
    pub fn eq_ignore_case(&self, other: &Self) -> (r: bool)
        ensures
            r == name_eq_ci(self@, other@),
    {
        if self.labels.len() != other.labels.len() {
            return false;
        }
        let n = self.labels.len();
        let mut i: usize = 0;
        while i < n
            invariant
                0 <= i <= n,
                n == self@.len(),
                n == other@.len(),
                forall|j: int| 0 <= j < i ==> label_eq_ci(#[trigger] self@[j], other@[j]),
            decreases n - i,
        {
            if !label_eq_ci_exec(&self.labels[i], &other.labels[i]) {
                proof {
                    assert(!label_eq_ci(self@[i as int], other@[i as int]));
                }
                return false;
            }
            i = i + 1;
        }
        true
    }
}

/// Case folds one octet, exactly as the name-equality rule does.
pub fn ascii_lower_exec(b: u8) -> (r: u8)
    ensures
        r == ascii_lower(b),
{
    if 65 <= b && b <= 90 {
        b + 32
    } else {
        b
    }
}

/// Byte-exact equality of two labels.
fn label_bytes_eq(a: &Vec<u8>, b: &Vec<u8>) -> (r: bool)
    ensures
        r == (a@ == b@),
{
    if a.len() != b.len() {
        proof {
            assert(a@.len() != b@.len());
        }
        return false;
    }
    let n = a.len();
    let mut i: usize = 0;
    while i < n
        invariant
            0 <= i <= n,
            n == a@.len(),
            n == b@.len(),
            forall|j: int| 0 <= j < i ==> a@[j] == b@[j],
        decreases n - i,
    {
        if a[i] != b[i] {
            return false;
        }
        i = i + 1;
    }
    proof {
        assert(a@ =~= b@);
    }
    true
}

/// Compares two labels up to ASCII case.
fn label_eq_ci_exec(a: &Vec<u8>, b: &Vec<u8>) -> (r: bool)
    ensures
        r == label_eq_ci(a@, b@),
{
    if a.len() != b.len() {
        return false;
    }
    let n = a.len();
    let mut i: usize = 0;
    while i < n
        invariant
            0 <= i <= n,
            n == a@.len(),
            n == b@.len(),
            forall|j: int| 0 <= j < i ==> ascii_lower(#[trigger] a@[j]) == ascii_lower(b@[j]),
        decreases n - i,
    {
        if ascii_lower_exec(a[i]) != ascii_lower_exec(b[i]) {
            return false;
        }
        i = i + 1;
    }
    true
}

/// Appending one label adds its length plus one octet to the wire length.
pub proof fn lemma_labels_enc_len_snoc(ls: Seq<Seq<u8>>, i: int)
    requires
        0 <= i < ls.len(),
    ensures
        labels_enc_len(ls.subrange(0, i + 1)) == labels_enc_len(ls.subrange(0, i)) + 1
            + ls[i].len(),
    decreases i,
{
    let a = ls.subrange(0, i + 1);
    let b = ls.subrange(0, i);
    if i == 0 {
        let e = Seq::<Seq<u8>>::empty();
        assert(b =~= e);
        assert(labels_enc_len(e) == 0);
        assert(a.subrange(1, a.len() as int) =~= e);
        assert(labels_enc_len(a) == 1 + a[0].len() + labels_enc_len(a.subrange(1, 1)));
    } else {
        let tl = ls.subrange(1, ls.len() as int);
        lemma_labels_enc_len_snoc(tl, i - 1);
        assert(a.subrange(1, a.len() as int) =~= tl.subrange(0, i));
        assert(b.subrange(1, b.len() as int) =~= tl.subrange(0, i - 1));
        assert(tl.subrange(0, i - 1 + 1) =~= tl.subrange(0, i));
        assert(labels_enc_len(a) == 1 + a[0].len() + labels_enc_len(a.subrange(1, a.len()
            as int)));
        assert(labels_enc_len(b) == 1 + b[0].len() + labels_enc_len(b.subrange(1, b.len()
            as int)));
    }
}

/// A prefix never exceeds the whole name's wire length (labels all count
/// positively).
pub proof fn lemma_labels_enc_len_prefix_bound(ls: Seq<Seq<u8>>, i: int)
    requires
        0 <= i <= ls.len(),
    ensures
        labels_enc_len(ls.subrange(0, i)) <= labels_enc_len(ls),
    decreases ls.len() - i,
{
    if i == ls.len() {
        assert(ls.subrange(0, i) =~= ls);
    } else {
        lemma_labels_enc_len_snoc(ls, i);
        lemma_labels_enc_len_prefix_bound(ls, i + 1);
    }
}

/// The wire length of a label sequence is never negative.
pub proof fn lemma_labels_enc_len_nonneg(ls: Seq<Seq<u8>>)
    ensures
        labels_enc_len(ls) >= 0,
    decreases ls.len(),
{
    if ls.len() > 0 {
        lemma_labels_enc_len_nonneg(ls.subrange(1, ls.len() as int));
    }
}

} // verus!

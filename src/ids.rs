//! Names and the identifiers built from them: their text form, its parser,
//! and their binary encoding.
use vstd::prelude::*;
use vstd::string::StringSliceAdditionalSpecFns;
use crate::wire::{
    DecodeError, starts_at, cut_at, enc_bytes, encode_bytes, decode_bytes, lemma_starts_at_concat,
    lemma_cut_at_concat, lemma_whole,
};

verus! {

/// Why a text could not be read as an identifier.
#[derive(Debug, Clone, Copy, PartialEq, Eq)]
pub enum ParseError {
    /// The separator of the kind is missing, repeated, or another separator stands in the text.
    MalformedIdentifier,
    /// A part is empty or holds whitespace.
    InvalidName,
}

/// The separator of an asset definition id, `#`.
pub const HASH: u8 = 35;

/// The separator of an account id, `@`.
pub const AT: u8 = 64;

pub open spec fn is_sep(b: u8) -> bool {
    b == HASH || b == AT
}

/// A byte that may stand in a name: no separator and no ASCII whitespace.
pub open spec fn allowed(b: u8) -> bool {
    !is_sep(b) && b != 32 && b != 9 && b != 10 && b != 12 && b != 13
}

/// A name is a non-empty run of allowed bytes.
pub open spec fn valid_name(s: Seq<u8>) -> bool {
    0 < s.len() <= usize::MAX && forall|i: int| 0 <= i < s.len() ==> #[trigger] allowed(s[i])
}

/// `s` holds exactly one separator, the byte `c`, at `i`.
pub open spec fn single_sep_at(s: Seq<u8>, c: u8, i: int) -> bool {
    &&& 0 <= i < s.len()
    &&& s[i] == c
    &&& forall|j: int| 0 <= j < s.len() && j != i ==> !is_sep(#[trigger] s[j])
}

/// The two parts of a compound text `left c right`.
pub open spec fn split_compound(s: Seq<u8>, c: u8) -> Result<(Seq<u8>, Seq<u8>), ParseError> {
    if exists|i: int| single_sep_at(s, c, i) {
        let i = choose|i: int| single_sep_at(s, c, i);
        let a = s.take(i);
        let b = s.skip(i + 1);
        if valid_name(a) && valid_name(b) {
            Ok((a, b))
        } else {
            Err(ParseError::InvalidName)
        }
    } else {
        Err(ParseError::MalformedIdentifier)
    }
}

/// The text `left c right`.
pub open spec fn join(a: Seq<u8>, c: u8, b: Seq<u8>) -> Seq<u8> {
    a + seq![c] + b
}

/// A validated name.
#[derive(Debug)]
pub struct Name {
    bytes: Vec<u8>,
}

impl View for Name {
    type V = Seq<u8>;

    closed spec fn view(&self) -> Seq<u8> {
        self.bytes@
    }
}

impl Clone for Name {
    fn clone(&self) -> (r: Self)
        ensures
            r@ == self@,
    {
        proof {
            use_type_invariant(self);
        }
        Name { bytes: self.bytes.clone() }
    }
}

impl Name {
    #[verifier::type_invariant]
    spec fn wf(&self) -> bool {
        valid_name(self.bytes@)
    }

    /// Every name obeys the naming rules.
    pub fn check_valid(&self)
        ensures
            valid_name(self@),
    {
        proof {
            use_type_invariant(self);
        }
    }

    /// Checks `s` against the naming rules.
    pub fn parse(s: &[u8]) -> (r: Result<Name, ParseError>)
        ensures
            r is Ok <==> valid_name(s@),
            r is Ok ==> r->Ok_0@ == s@,
            r is Err ==> r->Err_0 == ParseError::InvalidName,
    {
        if all_allowed(s) {
            Ok(Name { bytes: vstd::slice::slice_to_vec(s) })
        } else {
            Err(ParseError::InvalidName)
        }
    }

    /// The bytes of the name.
    pub fn as_bytes(&self) -> (r: &[u8])
        ensures
            r@ == self@,
    {
        self.bytes.as_slice()
    }

    pub fn encode_to(&self, out: &mut Vec<u8>)
        ensures
            final(out)@ == old(out)@ + enc_bytes(self@),
    {
        encode_bytes(&self.bytes, out);
    }

    /// Reads a length-prefixed name at `pos`.
    pub fn decode_from(buf: &[u8], pos: usize) -> (r: Result<(Name, usize), DecodeError>)
        requires
            pos <= buf@.len(),
        ensures
            r is Ok ==> starts_at(buf@, pos as int, enc_bytes(r->Ok_0.0@)) && r->Ok_0.1 == pos
                + enc_bytes(r->Ok_0.0@).len(),
            forall|s: Seq<u8>|
                valid_name(s) && #[trigger] starts_at(buf@, pos as int, enc_bytes(s)) ==> r is Ok
                    && r->Ok_0.0@ == s && r->Ok_0.1 == pos + enc_bytes(s).len(),
            forall|s: Seq<u8>|
                valid_name(s) && #[trigger] cut_at(buf@, pos as int, enc_bytes(s)) ==> r == Err::<
                    (Name, usize),
                    DecodeError,
                >(DecodeError::UnexpectedEof),
    {
        match decode_bytes(buf, pos) {
            Err(e) => Err(e),
            Ok((v, p)) => {
                if all_allowed(v.as_slice()) {
                    Ok((Name { bytes: v }, p))
                } else {
                    Err(DecodeError::InvalidValue)
                }
            },
        }
    }
}

/// Whether every byte of `s` may stand in a name, and `s` is not empty.
fn all_allowed(s: &[u8]) -> (r: bool)
    ensures
        r == valid_name(s@),
{
    if s.len() == 0 {
        return false;
    }
    let mut i: usize = 0;
    while i < s.len()
        invariant
            i <= s@.len(),
            forall|j: int| 0 <= j < i ==> #[trigger] allowed(s@[j]),
        decreases s@.len() - i,
    {
        let b = s[i];
        if b == HASH || b == AT || b == 32 || b == 9 || b == 10 || b == 12 || b == 13 {
            assert(!allowed(s@[i as int]));
            return false;
        }
        i = i + 1;
    }
    true
}

/// Splits `s` at its one separator `c` into two names.
fn split_at_separator(s: &[u8], c: u8) -> (r: Result<(Name, Name), ParseError>)
    requires
        is_sep(c),
    ensures
        r is Ok <==> split_compound(s@, c) is Ok,
        r is Ok ==> (r->Ok_0.0@, r->Ok_0.1@) == split_compound(s@, c)->Ok_0,
        r is Err ==> r->Err_0 == split_compound(s@, c)->Err_0,
{
    let mut found: Option<usize> = None;
    let mut i: usize = 0;
    while i < s.len()
        invariant
            i <= s@.len(),
            is_sep(c),
            found is None ==> forall|j: int| 0 <= j < i ==> !is_sep(#[trigger] s@[j]),
            found is Some ==> {
                let f = found->Some_0 as int;
                &&& f < i
                &&& s@[f] == c
                &&& forall|j: int| 0 <= j < i && j != f ==> !is_sep(#[trigger] s@[j])
            },
        decreases s@.len() - i,
    {
        let b = s[i];
        if b == HASH || b == AT {
            if b != c || found.is_some() {
                proof {
                    assert forall|k: int| !single_sep_at(s@, c, k) by {
                        if single_sep_at(s@, c, k) {
                            assert(k == i);
                            if found is Some {
                                assert(k == found->Some_0 as int);
                            }
                        }
                    }
                }
                return Err(ParseError::MalformedIdentifier);
            }
            found = Some(i);
        }
        i = i + 1;
    }
    match found {
        None => {
            proof {
                assert forall|k: int| !single_sep_at(s@, c, k) by {
                    if single_sep_at(s@, c, k) {
                        assert(is_sep(s@[k]));
                    }
                }
            }
            Err(ParseError::MalformedIdentifier)
        },
        Some(f) => {
            proof {
                assert(single_sep_at(s@, c, f as int));
                let k = choose|k: int| single_sep_at(s@, c, k);
                if k != f {
                    assert(is_sep(s@[f as int]));
                }
                assert(k == f);
            }
            let left = vstd::slice::slice_subrange(s, 0, f);
            let right = vstd::slice::slice_subrange(s, f + 1, s.len());
            assert(left@ =~= s@.take(f as int));
            assert(right@ =~= s@.skip(f + 1));
            match Name::parse(left) {
                Err(e) => Err(e),
                Ok(a) => match Name::parse(right) {
                    Err(e) => Err(e),
                    Ok(b) => Ok((a, b)),
                },
            }
        },
    }
}

/// A lemma: joining two names at a separator gives back exactly those names.
pub proof fn lemma_split_join(a: Seq<u8>, c: u8, b: Seq<u8>)
    requires
        valid_name(a),
        valid_name(b),
        is_sep(c),
    ensures
        split_compound(join(a, c, b), c) == Ok::<(Seq<u8>, Seq<u8>), ParseError>((a, b)),
{
    let s = join(a, c, b);
    let n = a.len() as int;
    assert forall|j: int| 0 <= j < s.len() && j != n implies !is_sep(#[trigger] s[j]) by {
        if j < n {
            assert(allowed(a[j]));
        } else {
            assert(allowed(b[j - n - 1]));
        }
    }
    assert(single_sep_at(s, c, n));
    let k = choose|k: int| single_sep_at(s, c, k);
    if k != n {
        assert(is_sep(s[n]));
    }
    assert(s.take(n) =~= a);
    assert(s.skip(n + 1) =~= b);
}

/// A lemma: a text that splits is the join of its parts.
pub proof fn lemma_join_split(s: Seq<u8>, c: u8)
    requires
        split_compound(s, c) is Ok,
    ensures
        join(split_compound(s, c)->Ok_0.0, c, split_compound(s, c)->Ok_0.1) == s,
{
    let i = choose|i: int| single_sep_at(s, c, i);
    assert(join(s.take(i), c, s.skip(i + 1)) =~= s);
}

/// The encoding of two names in a row.
pub open spec fn enc_pair(v: (Seq<u8>, Seq<u8>)) -> Seq<u8> {
    enc_bytes(v.0) + enc_bytes(v.1)
}

pub open spec fn valid_pair(v: (Seq<u8>, Seq<u8>)) -> bool {
    valid_name(v.0) && valid_name(v.1)
}

/// Reads two names in a row at `pos`.
fn decode_name_pair(buf: &[u8], pos: usize) -> (r: Result<(Name, Name, usize), DecodeError>)
    requires
        pos <= buf@.len(),
    ensures
        r is Ok ==> starts_at(buf@, pos as int, enc_pair((r->Ok_0.0@, r->Ok_0.1@))) && r->Ok_0.2
            == pos + enc_pair((r->Ok_0.0@, r->Ok_0.1@)).len(),
        forall|v: (Seq<u8>, Seq<u8>)|
            valid_pair(v) && #[trigger] starts_at(buf@, pos as int, enc_pair(v)) ==> r is Ok && (
            r->Ok_0.0@, r->Ok_0.1@) == v && r->Ok_0.2 == pos + enc_pair(v).len(),
        forall|v: (Seq<u8>, Seq<u8>)|
            valid_pair(v) && #[trigger] cut_at(buf@, pos as int, enc_pair(v)) ==> r == Err::<
                (Name, Name, usize),
                DecodeError,
            >(DecodeError::UnexpectedEof),
{
    proof {
        assert forall|v: (Seq<u8>, Seq<u8>)| #[trigger]
            starts_at(buf@, pos as int, enc_pair(v)) implies starts_at(
            buf@,
            pos as int,
            enc_bytes(v.0),
        ) && starts_at(buf@, pos + enc_bytes(v.0).len(), enc_bytes(v.1)) by {
            lemma_starts_at_concat(buf@, pos as int, enc_bytes(v.0), enc_bytes(v.1));
        }
        assert forall|v: (Seq<u8>, Seq<u8>)| #[trigger]
            cut_at(buf@, pos as int, enc_pair(v)) implies cut_at(buf@, pos as int, enc_bytes(v.0))
            || (starts_at(buf@, pos as int, enc_bytes(v.0)) && cut_at(
            buf@,
            pos + enc_bytes(v.0).len(),
            enc_bytes(v.1),
        )) by {
            lemma_cut_at_concat(buf@, pos as int, enc_bytes(v.0), enc_bytes(v.1));
        }
    }
    let (a, p1) = match Name::decode_from(buf, pos) {
        Err(e) => {
            return Err(e);
        },
        Ok(x) => x,
    };
    let (b, p2) = match Name::decode_from(buf, p1) {
        Err(e) => {
            return Err(e);
        },
        Ok(x) => x,
    };
    proof {
        lemma_starts_at_concat(buf@, pos as int, enc_bytes(a@), enc_bytes(b@));
    }
    Ok((a, b, p2))
}

/// The name of a domain.
#[derive(Debug)]
pub struct DomainId {
    pub name: Name,
}

/// An account: a signatory name within a domain, written `name@domain`.
#[derive(Debug)]
pub struct AccountId {
    pub signatory: Name,
    pub domain: DomainId,
}

/// The definition of an asset: a name within a domain, written `name#domain`.
#[derive(Debug)]
pub struct AssetDefinitionId {
    pub name: Name,
    pub domain: DomainId,
}

/// One account's holding of one defined asset.
#[derive(Debug)]
pub struct AssetId {
    pub definition: AssetDefinitionId,
    pub account: AccountId,
}

/// The name of a trigger.
#[derive(Debug)]
pub struct TriggerId {
    pub name: Name,
}

impl Clone for DomainId {
    fn clone(&self) -> (r: Self)
        ensures
            r@ == self@,
    {
        DomainId { name: self.name.clone() }
    }
}

impl Clone for TriggerId {
    fn clone(&self) -> (r: Self)
        ensures
            r@ == self@,
    {
        TriggerId { name: self.name.clone() }
    }
}

impl Clone for AccountId {
    fn clone(&self) -> (r: Self)
        ensures
            r@ == self@,
    {
        AccountId { signatory: self.signatory.clone(), domain: self.domain.clone() }
    }
}

impl Clone for AssetDefinitionId {
    fn clone(&self) -> (r: Self)
        ensures
            r@ == self@,
    {
        AssetDefinitionId { name: self.name.clone(), domain: self.domain.clone() }
    }
}

impl Clone for AssetId {
    fn clone(&self) -> (r: Self)
        ensures
            r@ == self@,
    {
        AssetId { definition: self.definition.clone(), account: self.account.clone() }
    }
}

impl View for DomainId {
    type V = Seq<u8>;

    open spec fn view(&self) -> Seq<u8> {
        self.name@
    }
}

impl View for TriggerId {
    type V = Seq<u8>;

    open spec fn view(&self) -> Seq<u8> {
        self.name@
    }
}

impl View for AccountId {
    type V = (Seq<u8>, Seq<u8>);

    open spec fn view(&self) -> (Seq<u8>, Seq<u8>) {
        (self.signatory@, self.domain@)
    }
}

impl View for AssetDefinitionId {
    type V = (Seq<u8>, Seq<u8>);

    open spec fn view(&self) -> (Seq<u8>, Seq<u8>) {
        (self.name@, self.domain@)
    }
}

impl View for AssetId {
    type V = ((Seq<u8>, Seq<u8>), (Seq<u8>, Seq<u8>));

    open spec fn view(&self) -> ((Seq<u8>, Seq<u8>), (Seq<u8>, Seq<u8>)) {
        (self.definition@, self.account@)
    }
}

/// The encoding of an asset id: its definition, then its account.
pub open spec fn enc_asset_id(v: ((Seq<u8>, Seq<u8>), (Seq<u8>, Seq<u8>))) -> Seq<u8> {
    enc_pair(v.0) + enc_pair(v.1)
}

pub open spec fn valid_asset_id(v: ((Seq<u8>, Seq<u8>), (Seq<u8>, Seq<u8>))) -> bool {
    valid_pair(v.0) && valid_pair(v.1)
}

impl DomainId {
    /// Reads a domain name.
    pub fn parse(raw: &str) -> (r: Result<DomainId, ParseError>)
        ensures
            r is Ok <==> valid_name(raw.spec_bytes()),
            r is Ok ==> r->Ok_0@ == raw.spec_bytes(),
            r is Err ==> r->Err_0 == ParseError::InvalidName,
    {
        match Name::parse(raw.as_bytes()) {
            Ok(name) => Ok(DomainId { name }),
            Err(e) => Err(e),
        }
    }

    /// The text form: the name itself.
    pub fn to_text(&self) -> (r: Vec<u8>)
        ensures
            r@ == self@,
    {
        vstd::slice::slice_to_vec(self.name.as_bytes())
    }

    pub fn encode_to(&self, out: &mut Vec<u8>)
        ensures
            final(out)@ == old(out)@ + enc_bytes(self@),
    {
        self.name.encode_to(out);
    }

    pub fn decode_from(buf: &[u8], pos: usize) -> (r: Result<(DomainId, usize), DecodeError>)
        requires
            pos <= buf@.len(),
        ensures
            r is Ok ==> starts_at(buf@, pos as int, enc_bytes(r->Ok_0.0@)) && r->Ok_0.1 == pos
                + enc_bytes(r->Ok_0.0@).len(),
            forall|s: Seq<u8>|
                valid_name(s) && #[trigger] starts_at(buf@, pos as int, enc_bytes(s)) ==> r is Ok
                    && r->Ok_0.0@ == s && r->Ok_0.1 == pos + enc_bytes(s).len(),
            forall|s: Seq<u8>|
                valid_name(s) && #[trigger] cut_at(buf@, pos as int, enc_bytes(s)) ==> r == Err::<
                    (DomainId, usize),
                    DecodeError,
                >(DecodeError::UnexpectedEof),
    {
        match Name::decode_from(buf, pos) {
            Ok((name, p)) => Ok((DomainId { name }, p)),
            Err(e) => Err(e),
        }
    }
}

impl TriggerId {
    /// Reads a trigger name.
    pub fn parse(raw: &str) -> (r: Result<TriggerId, ParseError>)
        ensures
            r is Ok <==> valid_name(raw.spec_bytes()),
            r is Ok ==> r->Ok_0@ == raw.spec_bytes(),
            r is Err ==> r->Err_0 == ParseError::InvalidName,
    {
        match Name::parse(raw.as_bytes()) {
            Ok(name) => Ok(TriggerId { name }),
            Err(e) => Err(e),
        }
    }

    /// The text form: the name itself.
    pub fn to_text(&self) -> (r: Vec<u8>)
        ensures
            r@ == self@,
    {
        vstd::slice::slice_to_vec(self.name.as_bytes())
    }

    pub fn encode_to(&self, out: &mut Vec<u8>)
        ensures
            final(out)@ == old(out)@ + enc_bytes(self@),
    {
        self.name.encode_to(out);
    }

    pub fn decode_from(buf: &[u8], pos: usize) -> (r: Result<(TriggerId, usize), DecodeError>)
        requires
            pos <= buf@.len(),
        ensures
            r is Ok ==> starts_at(buf@, pos as int, enc_bytes(r->Ok_0.0@)) && r->Ok_0.1 == pos
                + enc_bytes(r->Ok_0.0@).len(),
            forall|s: Seq<u8>|
                valid_name(s) && #[trigger] starts_at(buf@, pos as int, enc_bytes(s)) ==> r is Ok
                    && r->Ok_0.0@ == s && r->Ok_0.1 == pos + enc_bytes(s).len(),
            forall|s: Seq<u8>|
                valid_name(s) && #[trigger] cut_at(buf@, pos as int, enc_bytes(s)) ==> r == Err::<
                    (TriggerId, usize),
                    DecodeError,
                >(DecodeError::UnexpectedEof),
    {
        match Name::decode_from(buf, pos) {
            Ok((name, p)) => Ok((TriggerId { name }, p)),
            Err(e) => Err(e),
        }
    }
}

/// Appends `a c b`.
fn write_joined(a: &Name, c: u8, b: &Name) -> (r: Vec<u8>)
    ensures
        r@ == join(a@, c, b@),
{
    let mut out = vstd::slice::slice_to_vec(a.as_bytes());
    out.push(c);
    let bs = b.as_bytes();
    let mut i: usize = 0;
    let ghost mid = out@;
    while i < bs.len()
        invariant
            i <= bs@.len(),
            out@ == mid + bs@.subrange(0, i as int),
        decreases bs@.len() - i,
    {
        out.push(bs[i]);
        i = i + 1;
        assert(out@ =~= mid + bs@.subrange(0, i as int));
    }
    assert(bs@.subrange(0, bs@.len() as int) =~= bs@);
    out
}

impl AccountId {
    /// Reads `name@domain`.
    pub fn parse(raw: &str) -> (r: Result<AccountId, ParseError>)
        ensures
            r is Ok <==> split_compound(raw.spec_bytes(), AT) is Ok,
            r is Ok ==> r->Ok_0@ == split_compound(raw.spec_bytes(), AT)->Ok_0,
            r is Err ==> r->Err_0 == split_compound(raw.spec_bytes(), AT)->Err_0,
    {
        match split_at_separator(raw.as_bytes(), AT) {
            Ok((signatory, name)) => Ok(AccountId { signatory, domain: DomainId { name } }),
            Err(e) => Err(e),
        }
    }

    /// The text form `name@domain`.
    pub fn to_text(&self) -> (r: Vec<u8>)
        ensures
            r@ == join(self@.0, AT, self@.1),
    {
        write_joined(&self.signatory, AT, &self.domain.name)
    }

    pub fn encode_to(&self, out: &mut Vec<u8>)
        ensures
            final(out)@ == old(out)@ + enc_pair(self@),
    {
        self.signatory.encode_to(out);
        self.domain.encode_to(out);
        assert(final(out)@ =~= old(out)@ + enc_pair(self@));
    }

    pub fn decode_from(buf: &[u8], pos: usize) -> (r: Result<(AccountId, usize), DecodeError>)
        requires
            pos <= buf@.len(),
        ensures
            r is Ok ==> starts_at(buf@, pos as int, enc_pair(r->Ok_0.0@)) && r->Ok_0.1 == pos
                + enc_pair(r->Ok_0.0@).len(),
            forall|v: (Seq<u8>, Seq<u8>)|
                valid_pair(v) && #[trigger] starts_at(buf@, pos as int, enc_pair(v)) ==> r is Ok
                    && r->Ok_0.0@ == v && r->Ok_0.1 == pos + enc_pair(v).len(),
            forall|v: (Seq<u8>, Seq<u8>)|
                valid_pair(v) && #[trigger] cut_at(buf@, pos as int, enc_pair(v)) ==> r == Err::<
                    (AccountId, usize),
                    DecodeError,
                >(DecodeError::UnexpectedEof),
    {
        match decode_name_pair(buf, pos) {
            Ok((signatory, name, p)) => Ok((AccountId { signatory, domain: DomainId { name } }, p)),
            Err(e) => Err(e),
        }
    }
}

impl AssetDefinitionId {
    /// Reads `name#domain`.
    pub fn parse(raw: &str) -> (r: Result<AssetDefinitionId, ParseError>)
        ensures
            r is Ok <==> split_compound(raw.spec_bytes(), HASH) is Ok,
            r is Ok ==> r->Ok_0@ == split_compound(raw.spec_bytes(), HASH)->Ok_0,
            r is Err ==> r->Err_0 == split_compound(raw.spec_bytes(), HASH)->Err_0,
    {
        match split_at_separator(raw.as_bytes(), HASH) {
            Ok((name, domain)) => Ok(AssetDefinitionId { name, domain: DomainId { name: domain } }),
            Err(e) => Err(e),
        }
    }

    /// The text form `name#domain`.
    pub fn to_text(&self) -> (r: Vec<u8>)
        ensures
            r@ == join(self@.0, HASH, self@.1),
    {
        write_joined(&self.name, HASH, &self.domain.name)
    }

    pub fn encode_to(&self, out: &mut Vec<u8>)
        ensures
            final(out)@ == old(out)@ + enc_pair(self@),
    {
        self.name.encode_to(out);
        self.domain.encode_to(out);
        assert(final(out)@ =~= old(out)@ + enc_pair(self@));
    }

    pub fn decode_from(buf: &[u8], pos: usize) -> (r: Result<(AssetDefinitionId, usize), DecodeError>)
        requires
            pos <= buf@.len(),
        ensures
            r is Ok ==> starts_at(buf@, pos as int, enc_pair(r->Ok_0.0@)) && r->Ok_0.1 == pos
                + enc_pair(r->Ok_0.0@).len(),
            forall|v: (Seq<u8>, Seq<u8>)|
                valid_pair(v) && #[trigger] starts_at(buf@, pos as int, enc_pair(v)) ==> r is Ok
                    && r->Ok_0.0@ == v && r->Ok_0.1 == pos + enc_pair(v).len(),
            forall|v: (Seq<u8>, Seq<u8>)|
                valid_pair(v) && #[trigger] cut_at(buf@, pos as int, enc_pair(v)) ==> r == Err::<
                    (AssetDefinitionId, usize),
                    DecodeError,
                >(DecodeError::UnexpectedEof),
    {
        match decode_name_pair(buf, pos) {
            Ok((name, domain, p)) => Ok(
                (AssetDefinitionId { name, domain: DomainId { name: domain } }, p),
            ),
            Err(e) => Err(e),
        }
    }
}

impl AssetId {
    pub fn new(definition: AssetDefinitionId, account: AccountId) -> (r: AssetId)
        ensures
            r@ == (definition@, account@),
    {
        AssetId { definition, account }
    }

    pub fn encode_to(&self, out: &mut Vec<u8>)
        ensures
            final(out)@ == old(out)@ + enc_asset_id(self@),
    {
        self.definition.encode_to(out);
        self.account.encode_to(out);
        assert(final(out)@ =~= old(out)@ + enc_asset_id(self@));
    }

    pub fn decode_from(buf: &[u8], pos: usize) -> (r: Result<(AssetId, usize), DecodeError>)
        requires
            pos <= buf@.len(),
        ensures
            r is Ok ==> starts_at(buf@, pos as int, enc_asset_id(r->Ok_0.0@)) && r->Ok_0.1 == pos
                + enc_asset_id(r->Ok_0.0@).len(),
            forall|v: ((Seq<u8>, Seq<u8>), (Seq<u8>, Seq<u8>))|
                valid_asset_id(v) && #[trigger] starts_at(buf@, pos as int, enc_asset_id(v)) ==> r is Ok
                    && r->Ok_0.0@ == v && r->Ok_0.1 == pos + enc_asset_id(v).len(),
            forall|v: ((Seq<u8>, Seq<u8>), (Seq<u8>, Seq<u8>))|
                valid_asset_id(v) && #[trigger] cut_at(buf@, pos as int, enc_asset_id(v)) ==> r
                    == Err::<(AssetId, usize), DecodeError>(DecodeError::UnexpectedEof),
    {
        proof {
            assert forall|v: ((Seq<u8>, Seq<u8>), (Seq<u8>, Seq<u8>))| #[trigger]
                starts_at(buf@, pos as int, enc_asset_id(v)) implies starts_at(
                buf@,
                pos as int,
                enc_pair(v.0),
            ) && starts_at(buf@, pos + enc_pair(v.0).len(), enc_pair(v.1)) by {
                lemma_starts_at_concat(buf@, pos as int, enc_pair(v.0), enc_pair(v.1));
            }
            assert forall|v: ((Seq<u8>, Seq<u8>), (Seq<u8>, Seq<u8>))| #[trigger]
                cut_at(buf@, pos as int, enc_asset_id(v)) implies cut_at(
                buf@,
                pos as int,
                enc_pair(v.0),
            ) || (starts_at(buf@, pos as int, enc_pair(v.0)) && cut_at(
                buf@,
                pos + enc_pair(v.0).len(),
                enc_pair(v.1),
            )) by {
                lemma_cut_at_concat(buf@, pos as int, enc_pair(v.0), enc_pair(v.1));
            }
        }
        let (definition, p1) = match AssetDefinitionId::decode_from(buf, pos) {
            Err(e) => {
                return Err(e);
            },
            Ok(x) => x,
        };
        let (account, p2) = match AccountId::decode_from(buf, p1) {
            Err(e) => {
                return Err(e);
            },
            Ok(x) => x,
        };
        proof {
            lemma_starts_at_concat(buf@, pos as int, enc_pair(definition@), enc_pair(account@));
        }
        Ok((AssetId { definition, account }, p2))
    }
}

impl DomainId {
    /// The encoding of the whole value.
    pub fn encode(&self) -> (r: Vec<u8>)
        ensures
            r@ == enc_bytes(self@),
    {
        let mut out: Vec<u8> = Vec::new();
        self.encode_to(&mut out);
        assert(out@ =~= enc_bytes(self@));
        out
    }

    /// Reads one value that fills `bytes`.
    pub fn decode(bytes: &[u8]) -> (r: Result<DomainId, DecodeError>)
        ensures
            r is Ok ==> bytes@ == enc_bytes(r->Ok_0@),
            forall|v: Seq<u8>| valid_name(v) && bytes@ == #[trigger] enc_bytes(v) ==> r is Ok && r->Ok_0@ == v,
            forall|v: Seq<u8>|
                valid_name(v) && #[trigger] cut_at(bytes@, 0, enc_bytes(v)) ==> r == Err::<DomainId, DecodeError>(
                    DecodeError::UnexpectedEof,
                ),
            forall|v: Seq<u8>|
                valid_name(v) && #[trigger] starts_at(bytes@, 0, enc_bytes(v)) && enc_bytes(v).len() < bytes@.len()
                    ==> r == Err::<DomainId, DecodeError>(DecodeError::TrailingBytes),
    {
        proof {
            assert forall|v: Seq<u8>| bytes@ == #[trigger] enc_bytes(v) implies starts_at(bytes@, 0, enc_bytes(v)) by {
                lemma_whole(bytes@, enc_bytes(v));
            }
        }
        match DomainId::decode_from(bytes, 0) {
            Err(e) => Err(e),
            Ok((x, p)) => {
                if p != bytes.len() {
                    Err(DecodeError::TrailingBytes)
                } else {
                    proof {
                        lemma_whole(bytes@, enc_bytes(x@));
                    }
                    Ok(x)
                }
            },
        }
    }
}

impl TriggerId {
    /// The encoding of the whole value.
    pub fn encode(&self) -> (r: Vec<u8>)
        ensures
            r@ == enc_bytes(self@),
    {
        let mut out: Vec<u8> = Vec::new();
        self.encode_to(&mut out);
        assert(out@ =~= enc_bytes(self@));
        out
    }

    /// Reads one value that fills `bytes`.
    pub fn decode(bytes: &[u8]) -> (r: Result<TriggerId, DecodeError>)
        ensures
            r is Ok ==> bytes@ == enc_bytes(r->Ok_0@),
            forall|v: Seq<u8>| valid_name(v) && bytes@ == #[trigger] enc_bytes(v) ==> r is Ok && r->Ok_0@ == v,
            forall|v: Seq<u8>|
                valid_name(v) && #[trigger] cut_at(bytes@, 0, enc_bytes(v)) ==> r == Err::<TriggerId, DecodeError>(
                    DecodeError::UnexpectedEof,
                ),
            forall|v: Seq<u8>|
                valid_name(v) && #[trigger] starts_at(bytes@, 0, enc_bytes(v)) && enc_bytes(v).len() < bytes@.len()
                    ==> r == Err::<TriggerId, DecodeError>(DecodeError::TrailingBytes),
    {
        proof {
            assert forall|v: Seq<u8>| bytes@ == #[trigger] enc_bytes(v) implies starts_at(bytes@, 0, enc_bytes(v)) by {
                lemma_whole(bytes@, enc_bytes(v));
            }
        }
        match TriggerId::decode_from(bytes, 0) {
            Err(e) => Err(e),
            Ok((x, p)) => {
                if p != bytes.len() {
                    Err(DecodeError::TrailingBytes)
                } else {
                    proof {
                        lemma_whole(bytes@, enc_bytes(x@));
                    }
                    Ok(x)
                }
            },
        }
    }
}

impl AccountId {
    /// The encoding of the whole value.
    pub fn encode(&self) -> (r: Vec<u8>)
        ensures
            r@ == enc_pair(self@),
    {
        let mut out: Vec<u8> = Vec::new();
        self.encode_to(&mut out);
        assert(out@ =~= enc_pair(self@));
        out
    }

    /// Reads one value that fills `bytes`.
    pub fn decode(bytes: &[u8]) -> (r: Result<AccountId, DecodeError>)
        ensures
            r is Ok ==> bytes@ == enc_pair(r->Ok_0@),
            forall|v: (Seq<u8>, Seq<u8>)| valid_pair(v) && bytes@ == #[trigger] enc_pair(v) ==> r is Ok && r->Ok_0@ == v,
            forall|v: (Seq<u8>, Seq<u8>)|
                valid_pair(v) && #[trigger] cut_at(bytes@, 0, enc_pair(v)) ==> r == Err::<AccountId, DecodeError>(
                    DecodeError::UnexpectedEof,
                ),
            forall|v: (Seq<u8>, Seq<u8>)|
                valid_pair(v) && #[trigger] starts_at(bytes@, 0, enc_pair(v)) && enc_pair(v).len() < bytes@.len()
                    ==> r == Err::<AccountId, DecodeError>(DecodeError::TrailingBytes),
    {
        proof {
            assert forall|v: (Seq<u8>, Seq<u8>)| bytes@ == #[trigger] enc_pair(v) implies starts_at(bytes@, 0, enc_pair(v)) by {
                lemma_whole(bytes@, enc_pair(v));
            }
        }
        match AccountId::decode_from(bytes, 0) {
            Err(e) => Err(e),
            Ok((x, p)) => {
                if p != bytes.len() {
                    Err(DecodeError::TrailingBytes)
                } else {
                    proof {
                        lemma_whole(bytes@, enc_pair(x@));
                    }
                    Ok(x)
                }
            },
        }
    }
}

impl AssetDefinitionId {
    /// The encoding of the whole value.
    pub fn encode(&self) -> (r: Vec<u8>)
        ensures
            r@ == enc_pair(self@),
    {
        let mut out: Vec<u8> = Vec::new();
        self.encode_to(&mut out);
        assert(out@ =~= enc_pair(self@));
        out
    }

    /// Reads one value that fills `bytes`.
    pub fn decode(bytes: &[u8]) -> (r: Result<AssetDefinitionId, DecodeError>)
        ensures
            r is Ok ==> bytes@ == enc_pair(r->Ok_0@),
            forall|v: (Seq<u8>, Seq<u8>)| valid_pair(v) && bytes@ == #[trigger] enc_pair(v) ==> r is Ok && r->Ok_0@ == v,
            forall|v: (Seq<u8>, Seq<u8>)|
                valid_pair(v) && #[trigger] cut_at(bytes@, 0, enc_pair(v)) ==> r == Err::<AssetDefinitionId, DecodeError>(
                    DecodeError::UnexpectedEof,
                ),
            forall|v: (Seq<u8>, Seq<u8>)|
                valid_pair(v) && #[trigger] starts_at(bytes@, 0, enc_pair(v)) && enc_pair(v).len() < bytes@.len()
                    ==> r == Err::<AssetDefinitionId, DecodeError>(DecodeError::TrailingBytes),
    {
        proof {
            assert forall|v: (Seq<u8>, Seq<u8>)| bytes@ == #[trigger] enc_pair(v) implies starts_at(bytes@, 0, enc_pair(v)) by {
                lemma_whole(bytes@, enc_pair(v));
            }
        }
        match AssetDefinitionId::decode_from(bytes, 0) {
            Err(e) => Err(e),
            Ok((x, p)) => {
                if p != bytes.len() {
                    Err(DecodeError::TrailingBytes)
                } else {
                    proof {
                        lemma_whole(bytes@, enc_pair(x@));
                    }
                    Ok(x)
                }
            },
        }
    }
}

impl AssetId {
    /// The encoding of the whole value.
    pub fn encode(&self) -> (r: Vec<u8>)
        ensures
            r@ == enc_asset_id(self@),
    {
        let mut out: Vec<u8> = Vec::new();
        self.encode_to(&mut out);
        assert(out@ =~= enc_asset_id(self@));
        out
    }

    /// Reads one value that fills `bytes`.
    pub fn decode(bytes: &[u8]) -> (r: Result<AssetId, DecodeError>)
        ensures
            r is Ok ==> bytes@ == enc_asset_id(r->Ok_0@),
            forall|v: ((Seq<u8>, Seq<u8>), (Seq<u8>, Seq<u8>))| valid_asset_id(v) && bytes@ == #[trigger] enc_asset_id(v) ==> r is Ok && r->Ok_0@ == v,
            forall|v: ((Seq<u8>, Seq<u8>), (Seq<u8>, Seq<u8>))|
                valid_asset_id(v) && #[trigger] cut_at(bytes@, 0, enc_asset_id(v)) ==> r == Err::<AssetId, DecodeError>(
                    DecodeError::UnexpectedEof,
                ),
            forall|v: ((Seq<u8>, Seq<u8>), (Seq<u8>, Seq<u8>))|
                valid_asset_id(v) && #[trigger] starts_at(bytes@, 0, enc_asset_id(v)) && enc_asset_id(v).len() < bytes@.len()
                    ==> r == Err::<AssetId, DecodeError>(DecodeError::TrailingBytes),
    {
        proof {
            assert forall|v: ((Seq<u8>, Seq<u8>), (Seq<u8>, Seq<u8>))| bytes@ == #[trigger] enc_asset_id(v) implies starts_at(bytes@, 0, enc_asset_id(v)) by {
                lemma_whole(bytes@, enc_asset_id(v));
            }
        }
        match AssetId::decode_from(bytes, 0) {
            Err(e) => Err(e),
            Ok((x, p)) => {
                if p != bytes.len() {
                    Err(DecodeError::TrailingBytes)
                } else {
                    proof {
                        lemma_whole(bytes@, enc_asset_id(x@));
                    }
                    Ok(x)
                }
            },
        }
    }
}

/// Which kind of identifier a text is read as.
#[derive(Debug, Clone, Copy, PartialEq, Eq, Structural)]
pub enum IdentifierKind {
    Domain,
    Account,
    AssetDefinition,
    Trigger,
}

/// An identifier of any kind.
#[derive(Debug, Clone)]
pub enum Identifier {
    Domain(DomainId),
    Account(AccountId),
    AssetDefinition(AssetDefinitionId),
    Trigger(TriggerId),
}

/// What an identifier is: its kind and its names.
pub enum IdentifierView {
    Domain(Seq<u8>),
    Account(Seq<u8>, Seq<u8>),
    AssetDefinition(Seq<u8>, Seq<u8>),
    Trigger(Seq<u8>),
}

impl View for Identifier {
    type V = IdentifierView;

    open spec fn view(&self) -> IdentifierView {
        match self {
            Identifier::Domain(d) => IdentifierView::Domain(d@),
            Identifier::Account(a) => IdentifierView::Account(a@.0, a@.1),
            Identifier::AssetDefinition(a) => IdentifierView::AssetDefinition(a@.0, a@.1),
            Identifier::Trigger(t) => IdentifierView::Trigger(t@),
        }
    }
}

pub open spec fn kind_of(v: IdentifierView) -> IdentifierKind {
    match v {
        IdentifierView::Domain(_) => IdentifierKind::Domain,
        IdentifierView::Account(_, _) => IdentifierKind::Account,
        IdentifierView::AssetDefinition(_, _) => IdentifierKind::AssetDefinition,
        IdentifierView::Trigger(_) => IdentifierKind::Trigger,
    }
}

pub open spec fn valid_identifier(v: IdentifierView) -> bool {
    match v {
        IdentifierView::Domain(n) => valid_name(n),
        IdentifierView::Account(a, b) => valid_name(a) && valid_name(b),
        IdentifierView::AssetDefinition(a, b) => valid_name(a) && valid_name(b),
        IdentifierView::Trigger(n) => valid_name(n),
    }
}

/// The canonical text of an identifier.
pub open spec fn text(v: IdentifierView) -> Seq<u8> {
    match v {
        IdentifierView::Domain(n) => n,
        IdentifierView::Account(a, b) => join(a, AT, b),
        IdentifierView::AssetDefinition(a, b) => join(a, HASH, b),
        IdentifierView::Trigger(n) => n,
    }
}

/// What reading `s` as an identifier of kind `k` gives.
pub open spec fn parsed(s: Seq<u8>, k: IdentifierKind) -> Result<IdentifierView, ParseError> {
    match k {
        IdentifierKind::Domain => if valid_name(s) {
            Ok(IdentifierView::Domain(s))
        } else {
            Err(ParseError::InvalidName)
        },
        IdentifierKind::Trigger => if valid_name(s) {
            Ok(IdentifierView::Trigger(s))
        } else {
            Err(ParseError::InvalidName)
        },
        IdentifierKind::Account => match split_compound(s, AT) {
            Ok((a, b)) => Ok(IdentifierView::Account(a, b)),
            Err(e) => Err(e),
        },
        IdentifierKind::AssetDefinition => match split_compound(s, HASH) {
            Ok((a, b)) => Ok(IdentifierView::AssetDefinition(a, b)),
            Err(e) => Err(e),
        },
    }
}

/// Reads `raw` as an identifier of kind `kind`.
pub fn parse(raw: &str, kind: IdentifierKind) -> (r: Result<Identifier, ParseError>)
    ensures
        r is Ok <==> parsed(raw.spec_bytes(), kind) is Ok,
        r is Ok ==> r->Ok_0@ == parsed(raw.spec_bytes(), kind)->Ok_0,
        r is Err ==> r->Err_0 == parsed(raw.spec_bytes(), kind)->Err_0,
{
    match kind {
        IdentifierKind::Domain => match DomainId::parse(raw) {
            Ok(d) => Ok(Identifier::Domain(d)),
            Err(e) => Err(e),
        },
        IdentifierKind::Trigger => match TriggerId::parse(raw) {
            Ok(t) => Ok(Identifier::Trigger(t)),
            Err(e) => Err(e),
        },
        IdentifierKind::Account => match AccountId::parse(raw) {
            Ok(a) => Ok(Identifier::Account(a)),
            Err(e) => Err(e),
        },
        IdentifierKind::AssetDefinition => match AssetDefinitionId::parse(raw) {
            Ok(a) => Ok(Identifier::AssetDefinition(a)),
            Err(e) => Err(e),
        },
    }
}

impl Identifier {
    pub fn kind(&self) -> (r: IdentifierKind)
        ensures
            r == kind_of(self@),
    {
        match self {
            Identifier::Domain(_) => IdentifierKind::Domain,
            Identifier::Account(_) => IdentifierKind::Account,
            Identifier::AssetDefinition(_) => IdentifierKind::AssetDefinition,
            Identifier::Trigger(_) => IdentifierKind::Trigger,
        }
    }

    /// The canonical text of the identifier, as UTF-8 bytes.
    pub fn render(&self) -> (r: Vec<u8>)
        ensures
            r@ == text(self@),
    {
        match self {
            Identifier::Domain(d) => d.to_text(),
            Identifier::Account(a) => a.to_text(),
            Identifier::AssetDefinition(a) => a.to_text(),
            Identifier::Trigger(t) => t.to_text(),
        }
    }

    /// Every identifier is made of valid names.
    pub fn check_valid(&self)
        ensures
            valid_identifier(self@),
    {
        match self {
            Identifier::Domain(d) => d.name.check_valid(),
            Identifier::Account(a) => {
                a.signatory.check_valid();
                a.domain.name.check_valid();
            },
            Identifier::AssetDefinition(a) => {
                a.name.check_valid();
                a.domain.name.check_valid();
            },
            Identifier::Trigger(t) => t.name.check_valid(),
        }
    }
}

/// Reading the text of an identifier gives back that identifier.
pub proof fn lemma_parse_render(v: IdentifierView)
    requires
        valid_identifier(v),
    ensures
        parsed(text(v), kind_of(v)) == Ok::<IdentifierView, ParseError>(v),
{
    match v {
        IdentifierView::Account(a, b) => lemma_split_join(a, AT, b),
        IdentifierView::AssetDefinition(a, b) => lemma_split_join(a, HASH, b),
        _ => {},
    }
}

/// Every text that reads as an identifier is that identifier's text, of the kind asked for.
pub proof fn lemma_render_parse(s: Seq<u8>, k: IdentifierKind)
    requires
        parsed(s, k) is Ok,
    ensures
        text(parsed(s, k)->Ok_0) == s,
        kind_of(parsed(s, k)->Ok_0) == k,
        valid_identifier(parsed(s, k)->Ok_0),
{
    match k {
        IdentifierKind::Account => lemma_join_split(s, AT),
        IdentifierKind::AssetDefinition => lemma_join_split(s, HASH),
        _ => {},
    }
}

impl AccountId {
    /// Every account id is made of valid names.
    pub fn check_valid(&self)
        ensures
            valid_pair(self@),
    {
        self.signatory.check_valid();
        self.domain.name.check_valid();
    }
}

impl AssetDefinitionId {
    /// Every asset definition id is made of valid names.
    pub fn check_valid(&self)
        ensures
            valid_pair(self@),
    {
        self.name.check_valid();
        self.domain.name.check_valid();
    }
}

impl AssetId {
    /// Every asset id is made of valid names.
    pub fn check_valid(&self)
        ensures
            valid_asset_id(self@),
    {
        self.definition.check_valid();
        self.account.check_valid();
    }
}

} // verus!

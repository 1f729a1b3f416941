//! Scalars: the mutable cell with its in-place upgrade, and the frozen cell with its coercions settled at birth.
use crate::cow_buffer::AllocError;
use crate::storage;
use crate::string;
use crate::string::PString;
use crate::value::{DualPayload, Numeric, ScalarPayload};
use crate::warning;
use crate::warning::{NumifyWarning, WARN_SNIPPET_BYTES, WARN_SNIPPET_CHARS};
use std::sync::Arc;
use vstd::prelude::*;
use vstd::string::*;

verus! {

/// A chain of magic attached to a scalar.
pub struct MagicChain {}

/// A package stash, the symbol table of a package.
pub struct Stash {}

/// Errors from fallible scalar and container operations.
#[derive(Debug, PartialEq, Eq, Structural)]
pub enum ScalarError {
    /// Modification of a read-only value attempted.
    ReadOnly,
    Alloc(AllocError),
    /// A detached copy was asked of an engine whose copy is not cheap.
    SnapshotUnsupported,
}

impl From<AllocError> for ScalarError {
    fn from(e: AllocError) -> (r: ScalarError)
    {
        ScalarError::Alloc(e)
    }
}

impl vstd::std_specs::convert::FromSpecImpl<AllocError> for ScalarError {
    open spec fn obeys_from_spec() -> bool {
        true
    }

    open spec fn from_spec(e: AllocError) -> ScalarError {
        ScalarError::Alloc(e)
    }
}

impl ScalarError {
    /// The message perl shows.
    pub open spec fn message_text(self) -> Seq<char> {
        match self {
            ScalarError::ReadOnly => "Modification of a read-only value attempted"@,
            ScalarError::Alloc(_) => "Out of memory!"@,
            ScalarError::SnapshotUnsupported => "Snapshot of this container is not supported"@,
        }
    }

    /// The message perl shows.
    pub fn message(&self) -> (r: &'static str)
        ensures
            r@ == self.message_text(),
    {
        match self {
            ScalarError::ReadOnly => "Modification of a read-only value attempted",
            ScalarError::Alloc(_) => "Out of memory!",
            ScalarError::SnapshotUnsupported => "Snapshot of this container is not supported",
        }
    }
}

/// The rare state of a scalar: the payload with lazily filled caches of its coercions, and what only some scalars have.
pub struct FullScalar {
    payload: ScalarPayload,
    cached_int: Option<i64>,
    cached_float_bits: Option<u64>,
    cached_string: Option<PString>,
    magic: Option<Box<MagicChain>>,
    stash: Option<Arc<Stash>>,
    readonly: bool,
}

impl FullScalar {
    /// The caches are derived state: each is empty or agrees with the payload.
    #[verifier::type_invariant]
    pub closed spec fn wf(self) -> bool {
        &&& self.cached_int is Some ==> self.cached_int->0 == self.payload.as_number().int
        &&& self.cached_float_bits is Some ==> self.cached_float_bits->0 == self.payload.as_number().float_bits
        &&& self.cached_string is Some ==> self.payload.renders_as(self.cached_string->0)
    }

    fn new(payload: ScalarPayload) -> (r: FullScalar)
        ensures
            r.payload == payload,
            r.caches_empty(),
            r.magic is None,
            r.stash is None,
            !r.readonly,
    {
        FullScalar {
            payload,
            cached_int: None,
            cached_float_bits: None,
            cached_string: None,
            magic: None,
            stash: None,
            readonly: false,
        }
    }

    closed spec fn caches_empty(self) -> bool {
        self.cached_int is None && self.cached_float_bits is None && self.cached_string is None
    }

    /// The same scalar over another payload: the caches go.
    fn with_payload(self, payload: ScalarPayload) -> (r: FullScalar)
        ensures
            r.payload == payload,
            r.caches_empty(),
            r.magic == self.magic,
            r.stash == self.stash,
            r.readonly == self.readonly,
    {
        FullScalar {
            payload,
            cached_int: None,
            cached_float_bits: None,
            cached_string: None,
            magic: self.magic,
            stash: self.stash,
            readonly: self.readonly,
        }
    }
}

/// The mutable interior of a scalar.  `Plain` is the common case; `Full` carries the rare state.
pub enum ScalarCell {
    Plain(ScalarPayload),
    Full(Box<FullScalar>),
}

impl ScalarCell {
    /// The authoritative payload.
    pub closed spec fn held(self) -> ScalarPayload {
        match self {
            ScalarCell::Plain(p) => p,
            ScalarCell::Full(f) => f.payload,
        }
    }

    /// The dynamic readonly flag; plain cells never carry it.
    pub closed spec fn readonly_flag(self) -> bool {
        self is Full && self->Full_0.readonly
    }

    /// Whether magic is attached.
    pub closed spec fn magical(self) -> bool {
        self is Full && self->Full_0.magic is Some
    }

    /// The stash the scalar is blessed into.
    pub closed spec fn blessing(self) -> Option<Arc<Stash>> {
        match self {
            ScalarCell::Plain(_) => None,
            ScalarCell::Full(f) => f.stash,
        }
    }

    /// Everything but the payload is as in `other`.
    pub open spec fn keeps_state_of(self, other: ScalarCell) -> bool {
        &&& self is Full == other is Full
        &&& self.readonly_flag() == other.readonly_flag()
        &&& self.magical() == other.magical()
        &&& self.blessing() == other.blessing()
    }

    /// The authoritative payload.
    pub fn payload(&self) -> (r: &ScalarPayload)
        ensures
            *r == self.held(),
    {
        match self {
            ScalarCell::Plain(p) => p,
            ScalarCell::Full(f) => &f.payload,
        }
    }

    /// Perl truthiness.
    pub fn to_bool(&self) -> (r: bool)
        ensures
            r == self.held().truth(),
    {
        self.payload().to_bool()
    }

    /// The integer coercion; a full cell keeps what it computed.
    pub fn to_int(&mut self) -> (r: i64)
        ensures
            r == old(self).held().as_number().int,
            final(self).held() == old(self).held(),
            final(self).keeps_state_of(*old(self)),
    {
        match self {
            ScalarCell::Plain(p) => p.to_int(),
            ScalarCell::Full(f) => {
                proof {
                    use_type_invariant(&**f);
                }
                match f.cached_int {
                    Some(v) => v,
                    None => {
                        let v: i64 = f.payload.to_int();
                        f.cached_int = Some(v);
                        v
                    },
                }
            },
        }
    }

    /// The float coercion, by its bits; a full cell keeps what it computed.
    pub fn to_float_bits(&mut self) -> (r: u64)
        ensures
            r == old(self).held().as_number().float_bits,
            final(self).held() == old(self).held(),
            final(self).keeps_state_of(*old(self)),
    {
        match self {
            ScalarCell::Plain(p) => p.to_float_bits(),
            ScalarCell::Full(f) => {
                proof {
                    use_type_invariant(&**f);
                }
                match f.cached_float_bits {
                    Some(v) => v,
                    None => {
                        let v: u64 = f.payload.to_float_bits();
                        f.cached_float_bits = Some(v);
                        v
                    },
                }
            },
        }
    }

    /// How the value numifies.
    pub fn numify(&self) -> (r: Numeric)
        ensures
            r == self.held().as_number().numeric,
    {
        self.payload().numify()
    }

    /// Stringification; a full cell keeps what it computed.
    pub fn stringify(&mut self) -> (r: PString)
        ensures
            old(self).held().renders_as(r),
            final(self).held() == old(self).held(),
            final(self).keeps_state_of(*old(self)),
    {
        match self {
            ScalarCell::Plain(p) => p.stringify(),
            ScalarCell::Full(f) => {
                proof {
                    use_type_invariant(&**f);
                }
                if let Some(s) = &f.cached_string {
                    return s.clone();
                }
                let v = f.payload.stringify();
                f.cached_string = Some(v.clone());
                v
            },
        }
    }

    /// The taint of the value.
    pub fn is_tainted(&self) -> (r: bool)
        ensures
            r == self.held().taint(),
    {
        self.payload().is_tainted()
    }

    /// Whether the dynamic readonly flag is set.
    pub fn is_readonly(&self) -> (r: bool)
        ensures
            r == self.readonly_flag(),
    {
        match self {
            ScalarCell::Plain(_) => false,
            ScalarCell::Full(f) => f.readonly,
        }
    }

    /// Replace the payload.  Derived state drops here.  Fails on the dynamic readonly flag.
    pub fn assign(&mut self, payload: ScalarPayload) -> (r: Result<(), ScalarError>)
        ensures
            final(self).keeps_state_of(*old(self)),
            old(self).readonly_flag() ==> r == Err::<(), ScalarError>(ScalarError::ReadOnly) && *final(self) == *old(
                self,
            ),
            !old(self).readonly_flag() ==> r is Ok && final(self).held() == payload,
    {
        if self.is_readonly() {
            return Err(ScalarError::ReadOnly);
        }
        self.replace_payload(payload);
        Ok(())
    }

    fn replace_payload(&mut self, payload: ScalarPayload)
        ensures
            final(self).keeps_state_of(*old(self)),
            final(self).held() == payload,
    {
        let mut taken = ScalarCell::Plain(ScalarPayload::Undef { tainted: false });
        std::mem::swap(self, &mut taken);
        *self = match taken {
            ScalarCell::Plain(_) => ScalarCell::Plain(payload),
            ScalarCell::Full(full) => ScalarCell::Full(Box::new((*full).with_payload(payload))),
        };
    }

    /// Upgrade a plain cell to a full one in place; a full cell stays as it is.
    pub fn upgrade_to_full(&mut self)
        ensures
            *final(self) is Full,
            final(self).held() == old(self).held(),
            final(self).readonly_flag() == old(self).readonly_flag(),
            final(self).magical() == old(self).magical(),
            final(self).blessing() == old(self).blessing(),
            *old(self) is Full ==> *final(self) == *old(self),
    {
        if let ScalarCell::Full(_) = self {
            return;
        }
        let mut taken = ScalarCell::Plain(ScalarPayload::Undef { tainted: false });
        std::mem::swap(self, &mut taken);
        *self = match taken {
            ScalarCell::Plain(payload) => ScalarCell::Full(Box::new(FullScalar::new(payload))),
            ScalarCell::Full(full) => ScalarCell::Full(full),
        };
    }

    /// Set or clear the dynamic readonly flag.  Setting upgrades; clearing a plain cell does nothing.
    pub fn set_readonly(&mut self, readonly: bool)
        ensures
            final(self).readonly_flag() == readonly,
            final(self).held() == old(self).held(),
            final(self).magical() == old(self).magical(),
            final(self).blessing() == old(self).blessing(),
            *final(self) is Full == (*old(self) is Full || readonly),
    {
        if let ScalarCell::Plain(_) = self {
            if !readonly {
                return;
            }
        }
        self.upgrade_to_full();
        if let ScalarCell::Full(f) = self {
            proof {
                use_type_invariant(&**f);
            }
            f.readonly = readonly;
        }
    }

    /// Attach magic, upgrading to a full cell.
    pub fn set_magic(&mut self, magic: MagicChain)
        ensures
            final(self).magical(),
            *final(self) is Full,
            final(self).held() == old(self).held(),
            final(self).readonly_flag() == old(self).readonly_flag(),
            final(self).blessing() == old(self).blessing(),
    {
        self.upgrade_to_full();
        if let ScalarCell::Full(f) = self {
            proof {
                use_type_invariant(&**f);
            }
            f.magic = Some(Box::new(magic));
        }
    }

    pub fn has_magic(&self) -> (r: bool)
        ensures
            r == self.magical(),
    {
        match self {
            ScalarCell::Plain(_) => false,
            ScalarCell::Full(f) => f.magic.is_some(),
        }
    }

    /// Bless into a stash, upgrading to a full cell.
    pub fn bless(&mut self, stash: Arc<Stash>)
        ensures
            final(self).blessing() == Some(stash),
            *final(self) is Full,
            final(self).held() == old(self).held(),
            final(self).readonly_flag() == old(self).readonly_flag(),
            final(self).magical() == old(self).magical(),
    {
        self.upgrade_to_full();
        if let ScalarCell::Full(f) = self {
            proof {
                use_type_invariant(&**f);
            }
            f.stash = Some(stash);
        }
    }
}

/// The bounded prefix of `whole` that a warning carries, with whether the string extends beyond it.
pub open spec fn is_snippet(whole: PString, snippet: PString, truncated: bool) -> bool {
    let cut = snippet_cut(whole);
    &&& snippet.data() == whole.data().take(cut)
    &&& snippet.flagged() == whole.flagged()
    &&& truncated == (cut < whole.data().len())
}

/// Where the snippet of a string ends.
pub open spec fn snippet_cut(whole: PString) -> int {
    warning::units_end(whole.flagged(), whole.data(), 0, warning::snippet_bound(whole.flagged()))
}

/// A failure to allocate the snippet of a string: its content is too wide for the forms that need no allocation.
pub open spec fn snippet_failure(whole: PString, error: AllocError) -> bool {
    let content = whole.data().take(snippet_cut(whole));
    &&& snippet_cut(whole) < whole.data().len()
    &&& !storage::envelope_holds(content)
    &&& error.requested == string::birth(content)
}

/// The payload once a numification has noted its warning: the string with its numeric face.
pub open spec fn noted(payload: ScalarPayload) -> ScalarPayload {
    match payload {
        ScalarPayload::String { string, readings, warns } => if warns {
            if string.taint_bit() {
                ScalarPayload::DualTainted(DualPayload { string, readings })
            } else {
                ScalarPayload::Dual(DualPayload { string, readings })
            }
        } else {
            payload
        },
        _ => payload,
    }
}

/// A warning fires once: what a numification leaves behind warns no more, and reads as it did before.
pub proof fn law_warning_fires_once(payload: ScalarPayload)
    ensures
        !noted(payload).would_warn(),
        noted(noted(payload)) == noted(payload),
        noted(payload).as_number() == payload.as_number(),
        noted(payload).truth() == payload.truth(),
        noted(payload).taint() == payload.taint(),
        forall|s: PString| #[trigger] noted(payload).renders_as(s) == payload.renders_as(s),
{
}

/// The messages of the errors, whatever was requested.
pub proof fn law_error_messages_are_worded(error: AllocError)
    ensures
        ScalarError::ReadOnly.message_text() == "Modification of a read-only value attempted"@,
        ScalarError::Alloc(error).message_text() == "Out of memory!"@,
        ScalarError::SnapshotUnsupported.message_text() == "Snapshot of this container is not supported"@,
{
}

/// Noting a warning keeps the string and its readings, and its taint moves into the kind; every value that would not
/// warn stays as it is.  Only a bare string that is no complete number would.
pub proof fn law_noting_keeps_the_string(payload: ScalarPayload)
    ensures
        payload.would_warn() ==> payload is String && payload->String_warns,
        payload is String && payload->String_warns ==> payload.would_warn(),
        !payload.would_warn() ==> noted(payload) == payload,
        payload.would_warn() && payload.taint() ==> (noted(payload) matches ScalarPayload::DualTainted(dual)
            && dual.string == payload->String_string && dual.readings == payload->String_readings),
        payload.would_warn() && !payload.taint() ==> (noted(payload) matches ScalarPayload::Dual(dual) && dual.string
            == payload->String_string && dual.readings == payload->String_readings),
{
}

/// A snippet is a beginning of its string under the same flag, of at most 57 bytes without it, and says whether there is
/// more.
pub proof fn law_snippets_are_beginnings(whole: PString, snippet: PString, truncated: bool)
    requires
        is_snippet(whole, snippet, truncated),
    ensures
        snippet.data().len() <= whole.data().len(),
        snippet.data() == whole.data().take(snippet.data().len() as int),
        snippet.flagged() == whole.flagged(),
        truncated <==> snippet.data().len() < whole.data().len(),
        !whole.flagged() ==> snippet.data().len() == if whole.data().len() <= 57 {
            whole.data().len()
        } else {
            57
        },
{
    warning::lemma_units_end(whole.flagged(), whole.data(), 0, warning::snippet_bound(whole.flagged()));
    warning::law_prefix_holds_whole_characters(whole.data(), Seq::<char>::empty(), 57);
}

/// A warning's message is the one that the whole string would give.
pub proof fn law_warning_quotes_the_whole_string(whole: PString, snippet: PString, truncated: bool)
    requires
        is_snippet(whole, snippet, truncated),
    ensures
        (NumifyWarning::NotNumeric { snippet, truncated }).body() == "Argument \""@ + warning::quotation(
            whole.flagged(),
            whole.data(),
            false,
        ) + "\" isn't numeric"@,
{
    warning::law_snippet_quotes_as_the_whole(whole.flagged(), whole.data());
}

/// The snippet of a string.
fn snippet_of(whole: &PString) -> (r: Result<(PString, bool), AllocError>)
    ensures
        r is Ok ==> is_snippet(*whole, (r->Ok_0).0, (r->Ok_0).1),
        r is Err ==> snippet_failure(*whole, r->Err_0),
        snippet_cut(*whole) == whole.data().len() ==> r is Ok,
{
    let bound: usize = if whole.is_utf8() { WARN_SNIPPET_CHARS } else { WARN_SNIPPET_BYTES };
    proof {
        warning::lemma_units_end(whole.flagged(), whole.data(), 0, bound as nat);
        assert(whole.data().take(whole.data().len() as int) =~= whole.data());
    }
    whole.message_prefix(bound)
}

impl ScalarCell {
    /// Numify, noting the warning: the numeric result, and the warning exactly when the payload would warn and no
    /// numeric face has been left behind yet.  Noting it leaves the face behind.  Where the memory for the warning's
    /// snippet is not to be had, the cell is left undefined.
    pub fn numify_noting_warning(&mut self) -> (r: Result<(Numeric, Option<NumifyWarning>), AllocError>)
        ensures
            final(self).keeps_state_of(*old(self)),
            !old(self).held().would_warn() ==> r is Ok && (r->Ok_0).1 is None && *final(self) == *old(self),
            r is Ok ==> {
                &&& (r->Ok_0).0 == old(self).held().as_number().numeric
                &&& final(self).held() == noted(old(self).held())
            },
            old(self).held().would_warn() ==> {
                let string = old(self).held()->String_string;
                &&& r is Ok ==> ((r->Ok_0).1 matches Some(NumifyWarning::NotNumeric { snippet, truncated })
                    && is_snippet(string, snippet, truncated))
                &&& r is Err ==> snippet_failure(string, r->Err_0) && final(self).held() == ScalarPayload::undef_value()
            },
    {
        let (string, readings) = match self.payload() {
            ScalarPayload::String { string, readings, warns } => {
                if !*warns {
                    return Ok((readings.numeric, None));
                }
                (string.clone(), *readings)
            },
            other => {
                return Ok((other.numify(), None));
            },
        };
        match snippet_of(&string) {
            Err(error) => {
                self.replace_payload(ScalarPayload::Undef { tainted: false });
                Err(error)
            },
            Ok((snippet, truncated)) => {
                let tainted: bool = string.is_tainted();
                let dual = DualPayload { string, readings };
                self.replace_payload(
                    if tainted {
                        ScalarPayload::DualTainted(dual)
                    } else {
                        ScalarPayload::Dual(dual)
                    },
                );
                Ok((readings.numeric, Some(NumifyWarning::NotNumeric { snippet, truncated })))
            },
        }
    }
}

/// The frozen cell: every coercion settled at construction.
pub struct ConstScalar {
    payload: ScalarPayload,
    int: i64,
    float_bits: u64,
    string: PString,
    quote: Option<(PString, bool)>,
}

impl ConstScalar {
    #[verifier::type_invariant]
    pub closed spec fn wf(self) -> bool {
        &&& self.int == self.payload.as_number().int
        &&& self.float_bits == self.payload.as_number().float_bits
        &&& self.payload.renders_as(self.string)
        &&& self.quote is Some <==> self.payload.would_warn()
        &&& self.quote is Some ==> is_snippet(self.payload->String_string, (self.quote->0).0, (self.quote->0).1)
    }

    /// The payload.
    pub closed spec fn held(self) -> ScalarPayload {
        self.payload
    }

    /// Freeze a payload.  The snippet of a payload that can warn is taken here, where allocation may fail.
    pub fn materialize(payload: ScalarPayload) -> (r: Result<ConstScalar, AllocError>)
        ensures
            r is Ok ==> (r->Ok_0).held() == payload,
            !payload.would_warn() ==> r is Ok,
            r is Err ==> snippet_failure(payload->String_string, r->Err_0),
    {
        let as_int: i64 = payload.to_int();
        let float_bits: u64 = payload.to_float_bits();
        let string = payload.stringify();
        let quote: Option<(PString, bool)> = match &payload {
            ScalarPayload::String { string, readings: _, warns } => if *warns {
                match snippet_of(string) {
                    Ok(quote) => Some(quote),
                    Err(error) => {
                        return Err(error);
                    },
                }
            } else {
                None
            },
            _ => None,
        };
        Ok(ConstScalar { payload, int: as_int, float_bits, string, quote })
    }

    pub fn payload(&self) -> (r: &ScalarPayload)
        ensures
            *r == self.held(),
    {
        &self.payload
    }

    /// Perl truthiness.
    pub fn to_bool(&self) -> (r: bool)
        ensures
            r == self.held().truth(),
    {
        self.payload.to_bool()
    }

    /// The integer coercion.
    pub fn to_int(&self) -> (r: i64)
        ensures
            r == self.held().as_number().int,
    {
        proof {
            use_type_invariant(self);
        }
        self.int
    }

    /// The float coercion, by its bits.
    pub fn to_float_bits(&self) -> (r: u64)
        ensures
            r == self.held().as_number().float_bits,
    {
        proof {
            use_type_invariant(self);
        }
        self.float_bits
    }

    /// Stringification.
    pub fn stringify(&self) -> (r: &PString)
        ensures
            self.held().renders_as(*r),
    {
        proof {
            use_type_invariant(self);
        }
        &self.string
    }

    /// The taint of the value.
    pub fn is_tainted(&self) -> (r: bool)
        ensures
            r == self.held().taint(),
    {
        self.payload.is_tainted()
    }

    /// Whether a numification of this cell can warn at all.
    pub fn can_warn(&self) -> (r: bool)
        ensures
            r == self.held().would_warn(),
    {
        proof {
            use_type_invariant(self);
        }
        self.quote.is_some()
    }

    /// Note a numification, given whether an earlier one was noted already: the warning comes with the first.  The
    /// snippet was taken when the cell was frozen, so noting never allocates.
    pub fn note_numify_warning(&self, already_noted: bool) -> (r: Option<NumifyWarning>)
        ensures
            r is Some <==> self.held().would_warn() && !already_noted,
            r is Some ==> (r->0 matches NumifyWarning::NotNumeric { snippet, truncated } && is_snippet(
                self.held()->String_string,
                snippet,
                truncated,
            )),
    {
        proof {
            use_type_invariant(self);
        }
        if already_noted {
            return None;
        }
        match &self.quote {
            Some(quote) => Some(NumifyWarning::NotNumeric { snippet: quote.0.clone(), truncated: quote.1 }),
            None => None,
        }
    }
}

/// Keeping the state keeps the readonly flag, the magic, the blessing, and the kind of the cell.
pub proof fn law_kept_state_is_all_of_it(before: ScalarCell, after: ScalarCell)
    requires
        after.keeps_state_of(before),
    ensures
        after.readonly_flag() == before.readonly_flag(),
        after.magical() == before.magical(),
        after.blessing() == before.blessing(),
        after is Full <==> before is Full,
{
}

/// A failed allocation is reported as such, with what was requested.
pub proof fn law_allocation_failures_are_reported(error: AllocError)
    ensures
        <ScalarError as vstd::std_specs::convert::FromSpec<AllocError>>::from_spec(error) == ScalarError::Alloc(error),
{
}

/// A snippet of flagged text holds its first thirty-three characters, or all where there are fewer.
pub proof fn law_snippets_hold_whole_characters(whole: PString, snippet: PString, truncated: bool, chars: Seq<char>)
    requires
        is_snippet(whole, snippet, truncated),
        whole.flagged(),
        whole.data() == vstd::utf8::encode_utf8(chars),
    ensures
        snippet.data().len() == vstd::utf8::encode_utf8(
            chars.take(if chars.len() <= 33 { chars.len() as int } else { 33 }),
        ).len(),
{
    warning::lemma_units_end(true, whole.data(), 0, warning::snippet_bound(true));
    warning::law_prefix_holds_whole_characters(whole.data(), chars, 33);
}

} // verus!

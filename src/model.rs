//! The values that make up a trigger, and their binary encoding.
use vstd::prelude::*;
use crate::wire::{
    DecodeError, starts_at, cut_at, enc_compact, encode_compact, decode_compact, encode_u32,
    decode_u32, lemma_tagged, lemma_starts_at_concat, lemma_cut_at_concat, lemma_four, lemma_whole, enc_bytes,
};
use crate::ids::{AccountId, TriggerId, valid_name, AssetDefinitionId, AssetId, enc_pair, valid_pair, enc_asset_id, valid_asset_id};

verus! {

/// How many times a trigger may fire.
#[derive(Debug, Clone, Copy, PartialEq, Eq, Structural)]
pub enum Repeats {
    Indefinitely,
    Exactly(u32),
    Never,
}

pub open spec fn enc_repeats(v: Repeats) -> Seq<u8> {
    match v {
        Repeats::Indefinitely => seq![0u8],
        Repeats::Exactly(n) => seq![1u8] + enc_compact(n as nat),
        Repeats::Never => seq![2u8],
    }
}

impl Repeats {
    pub fn encode_to(&self, out: &mut Vec<u8>)
        ensures
            final(out)@ == old(out)@ + enc_repeats(*self),
    {
        match self {
            Repeats::Indefinitely => out.push(0u8),
            Repeats::Exactly(n) => {
                out.push(1u8);
                encode_u32(*n, out);
                assert(final(out)@ =~= old(out)@ + enc_repeats(*self));
            },
            Repeats::Never => out.push(2u8),
        }
    }

    pub fn decode_from(buf: &[u8], pos: usize) -> (r: Result<(Repeats, usize), DecodeError>)
        requires
            pos <= buf@.len(),
        ensures
            r is Ok ==> starts_at(buf@, pos as int, enc_repeats(r->Ok_0.0)) && r->Ok_0.1 == pos
                + enc_repeats(r->Ok_0.0).len(),
            forall|v: Repeats| #[trigger]
                starts_at(buf@, pos as int, enc_repeats(v)) ==> r == Ok::<(Repeats, usize), DecodeError>(
                    (v, (pos + enc_repeats(v).len()) as usize),
                ),
            forall|v: Repeats| #[trigger]
                cut_at(buf@, pos as int, enc_repeats(v)) ==> r == Err::<(Repeats, usize), DecodeError>(
                    DecodeError::UnexpectedEof,
                ),
            pos < buf@.len() && buf@[pos as int] > 2 ==> r == Err::<(Repeats, usize), DecodeError>(
                DecodeError::UnknownVariant,
            ),
    {
        proof {
            assert forall|v: Repeats| #[trigger] starts_at(buf@, pos as int, enc_repeats(v)) implies pos
                < buf@.len() && buf@[pos as int] == enc_repeats(v)[0] && (v is Exactly ==> starts_at(
                buf@,
                pos + 1,
                enc_compact(v->Exactly_0 as nat),
            )) by {
                match v {
                    Repeats::Exactly(n) => lemma_tagged(buf@, pos as int, 1u8, enc_compact(n as nat)),
                    _ => lemma_tagged(buf@, pos as int, enc_repeats(v)[0], seq![]),
                }
                assert(seq![enc_repeats(v)[0]] + seq![] =~= enc_repeats(v) || v is Exactly);
            }
            assert forall|v: Repeats| #[trigger] cut_at(buf@, pos as int, enc_repeats(v)) implies pos
                == buf@.len() || (v is Exactly && buf@[pos as int] == 1 && cut_at(
                buf@,
                pos + 1,
                enc_compact(v->Exactly_0 as nat),
            )) by {
                match v {
                    Repeats::Exactly(n) => lemma_tagged(buf@, pos as int, 1u8, enc_compact(n as nat)),
                    _ => {},
                }
            }
        }
        if pos >= buf.len() {
            return Err(DecodeError::UnexpectedEof);
        }
        let tag = buf[pos];
        if tag == 0 {
            proof {
                lemma_tagged(buf@, pos as int, 0u8, seq![]);
                assert(seq![0u8] + Seq::<u8>::empty() =~= seq![0u8]);
                assert(buf@.subrange(pos as int, pos + 1) =~= seq![0u8]);
            }
            Ok((Repeats::Indefinitely, pos + 1))
        } else if tag == 1 {
            match decode_u32(buf, pos + 1) {
                Err(e) => Err(e),
                Ok((n, p)) => {
                    proof {
                        lemma_tagged(buf@, pos as int, 1u8, enc_compact(n as nat));
                    }
                    Ok((Repeats::Exactly(n), p))
                },
            }
        } else if tag == 2 {
            proof {
                lemma_tagged(buf@, pos as int, 2u8, seq![]);
                assert(seq![2u8] + Seq::<u8>::empty() =~= seq![2u8]);
                assert(buf@.subrange(pos as int, pos + 1) =~= seq![2u8]);
            }
            Ok((Repeats::Never, pos + 1))
        } else {
            Err(DecodeError::UnknownVariant)
        }
    }
}

/// An optional integer: tag 0, or tag 1 and the integer in compact form.
pub open spec fn enc_opt_u64(v: Option<u64>) -> Seq<u8> {
    match v {
        None => seq![0u8],
        Some(n) => seq![1u8] + enc_compact(n as nat),
    }
}

fn encode_opt_u64(v: Option<u64>, out: &mut Vec<u8>)
    ensures
        final(out)@ == old(out)@ + enc_opt_u64(v),
{
    match v {
        None => out.push(0u8),
        Some(n) => {
            out.push(1u8);
            encode_compact(n, out);
            assert(final(out)@ =~= old(out)@ + enc_opt_u64(v));
        },
    }
}

fn decode_opt_u64(buf: &[u8], pos: usize) -> (r: Result<(Option<u64>, usize), DecodeError>)
    requires
        pos <= buf@.len(),
    ensures
        r is Ok ==> starts_at(buf@, pos as int, enc_opt_u64(r->Ok_0.0)) && r->Ok_0.1 == pos
            + enc_opt_u64(r->Ok_0.0).len(),
        forall|v: Option<u64>| #[trigger]
            starts_at(buf@, pos as int, enc_opt_u64(v)) ==> r == Ok::<
                (Option<u64>, usize),
                DecodeError,
            >((v, (pos + enc_opt_u64(v).len()) as usize)),
        forall|v: Option<u64>| #[trigger]
            cut_at(buf@, pos as int, enc_opt_u64(v)) ==> r == Err::<(Option<u64>, usize), DecodeError>(
                DecodeError::UnexpectedEof,
            ),
        pos < buf@.len() && buf@[pos as int] > 1 ==> r == Err::<(Option<u64>, usize), DecodeError>(
            DecodeError::UnknownVariant,
        ),
{
    proof {
        assert forall|v: Option<u64>| #[trigger] starts_at(buf@, pos as int, enc_opt_u64(v)) implies pos
            < buf@.len() && buf@[pos as int] == enc_opt_u64(v)[0] && (v is Some ==> starts_at(
            buf@,
            pos + 1,
            enc_compact(v->Some_0 as nat),
        )) by {
            match v {
                Some(n) => lemma_tagged(buf@, pos as int, 1u8, enc_compact(n as nat)),
                None => lemma_tagged(buf@, pos as int, 0u8, seq![]),
            }
            assert(seq![0u8] + Seq::<u8>::empty() =~= seq![0u8]);
        }
        assert forall|v: Option<u64>| #[trigger] cut_at(buf@, pos as int, enc_opt_u64(v)) implies pos
            == buf@.len() || (v is Some && buf@[pos as int] == 1 && cut_at(
            buf@,
            pos + 1,
            enc_compact(v->Some_0 as nat),
        )) by {
            match v {
                Some(n) => lemma_tagged(buf@, pos as int, 1u8, enc_compact(n as nat)),
                None => {},
            }
        }
    }
    if pos >= buf.len() {
        return Err(DecodeError::UnexpectedEof);
    }
    let tag = buf[pos];
    if tag == 0 {
        assert(buf@.subrange(pos as int, pos + 1) =~= seq![0u8]);
        Ok((None, pos + 1))
    } else if tag == 1 {
        match decode_compact(buf, pos + 1) {
            Err(e) => Err(e),
            Ok((n, p)) => {
                proof {
                    lemma_tagged(buf@, pos as int, 1u8, enc_compact(n as nat));
                }
                Ok((Some(n), p))
            },
        }
    } else {
        Err(DecodeError::UnknownVariant)
    }
}

/// When a time-based trigger fires: at `start_ms` milliseconds, then every
/// `period_ms` milliseconds if a period is given.
#[derive(Debug, Clone, Copy, PartialEq, Eq, Structural)]
pub struct TimeSchedule {
    pub start_ms: u64,
    pub period_ms: Option<u64>,
}

pub open spec fn enc_schedule(v: TimeSchedule) -> Seq<u8> {
    enc_compact(v.start_ms as nat) + enc_opt_u64(v.period_ms)
}

impl TimeSchedule {
    /// A schedule that fires once, at `start_ms`.
    pub fn starting_at(start_ms: u64) -> (r: TimeSchedule)
        ensures
            r == (TimeSchedule { start_ms, period_ms: None }),
    {
        TimeSchedule { start_ms, period_ms: None }
    }

    /// The same schedule, repeated every `period_ms`.
    pub fn with_period(self, period_ms: u64) -> (r: TimeSchedule)
        ensures
            r == (TimeSchedule { start_ms: self.start_ms, period_ms: Some(period_ms) }),
    {
        TimeSchedule { start_ms: self.start_ms, period_ms: Some(period_ms) }
    }

    pub fn encode_to(&self, out: &mut Vec<u8>)
        ensures
            final(out)@ == old(out)@ + enc_schedule(*self),
    {
        encode_compact(self.start_ms, out);
        encode_opt_u64(self.period_ms, out);
        assert(final(out)@ =~= old(out)@ + enc_schedule(*self));
    }

    pub fn decode_from(buf: &[u8], pos: usize) -> (r: Result<(TimeSchedule, usize), DecodeError>)
        requires
            pos <= buf@.len(),
        ensures
            r is Ok ==> starts_at(buf@, pos as int, enc_schedule(r->Ok_0.0)) && r->Ok_0.1 == pos
                + enc_schedule(r->Ok_0.0).len(),
            forall|v: TimeSchedule| #[trigger]
                starts_at(buf@, pos as int, enc_schedule(v)) ==> r == Ok::<
                    (TimeSchedule, usize),
                    DecodeError,
                >((v, (pos + enc_schedule(v).len()) as usize)),
            forall|v: TimeSchedule| #[trigger]
                cut_at(buf@, pos as int, enc_schedule(v)) ==> r == Err::<
                    (TimeSchedule, usize),
                    DecodeError,
                >(DecodeError::UnexpectedEof),
    {
        proof {
            assert forall|v: TimeSchedule| #[trigger]
                starts_at(buf@, pos as int, enc_schedule(v)) implies starts_at(
                buf@,
                pos as int,
                enc_compact(v.start_ms as nat),
            ) && starts_at(buf@, pos + enc_compact(v.start_ms as nat).len(), enc_opt_u64(v.period_ms))
                by {
                lemma_starts_at_concat(
                    buf@,
                    pos as int,
                    enc_compact(v.start_ms as nat),
                    enc_opt_u64(v.period_ms),
                );
            }
            assert forall|v: TimeSchedule| #[trigger]
                cut_at(buf@, pos as int, enc_schedule(v)) implies cut_at(
                buf@,
                pos as int,
                enc_compact(v.start_ms as nat),
            ) || (starts_at(buf@, pos as int, enc_compact(v.start_ms as nat)) && cut_at(
                buf@,
                pos + enc_compact(v.start_ms as nat).len(),
                enc_opt_u64(v.period_ms),
            )) by {
                lemma_cut_at_concat(
                    buf@,
                    pos as int,
                    enc_compact(v.start_ms as nat),
                    enc_opt_u64(v.period_ms),
                );
            }
        }
        let (start_ms, p1) = match decode_compact(buf, pos) {
            Err(e) => {
                return Err(e);
            },
            Ok(x) => x,
        };
        let (period_ms, p2) = match decode_opt_u64(buf, p1) {
            Err(e) => {
                return Err(e);
            },
            Ok(x) => x,
        };
        let v = TimeSchedule { start_ms, period_ms };
        proof {
            lemma_starts_at_concat(buf@, pos as int, enc_compact(start_ms as nat), enc_opt_u64(period_ms));
        }
        Ok((v, p2))
    }
}

/// Which data events a trigger listens to.
#[derive(Debug, Clone)]
pub enum DataFilter {
    /// Every data event.
    AcceptAll,
    /// The creation of any asset definition.
    AssetDefinitionCreated,
    /// Any event about the given asset definition.
    AssetDefinition(AssetDefinitionId),
}

pub enum DataFilterView {
    AcceptAll,
    AssetDefinitionCreated,
    AssetDefinition((Seq<u8>, Seq<u8>)),
}

impl View for DataFilter {
    type V = DataFilterView;

    open spec fn view(&self) -> DataFilterView {
        match self {
            DataFilter::AcceptAll => DataFilterView::AcceptAll,
            DataFilter::AssetDefinitionCreated => DataFilterView::AssetDefinitionCreated,
            DataFilter::AssetDefinition(id) => DataFilterView::AssetDefinition(id@),
        }
    }
}

pub open spec fn valid_data_filter(v: DataFilterView) -> bool {
    match v {
        DataFilterView::AssetDefinition(id) => valid_pair(id),
        _ => true,
    }
}

pub open spec fn enc_data_filter(v: DataFilterView) -> Seq<u8> {
    match v {
        DataFilterView::AcceptAll => seq![0u8],
        DataFilterView::AssetDefinitionCreated => seq![1u8],
        DataFilterView::AssetDefinition(id) => seq![2u8] + enc_pair(id),
    }
}

impl DataFilter {
    pub fn encode_to(&self, out: &mut Vec<u8>)
        ensures
            final(out)@ == old(out)@ + enc_data_filter(self@),
    {
        match self {
            DataFilter::AcceptAll => out.push(0u8),
            DataFilter::AssetDefinitionCreated => out.push(1u8),
            DataFilter::AssetDefinition(id) => {
                out.push(2u8);
                id.encode_to(out);
                assert(final(out)@ =~= old(out)@ + enc_data_filter(self@));
            },
        }
    }

    pub fn decode_from(buf: &[u8], pos: usize) -> (r: Result<(DataFilter, usize), DecodeError>)
        requires
            pos <= buf@.len(),
        ensures
            r is Ok ==> valid_data_filter(r->Ok_0.0@) && starts_at(
                buf@,
                pos as int,
                enc_data_filter(r->Ok_0.0@),
            ) && r->Ok_0.1 == pos + enc_data_filter(r->Ok_0.0@).len(),
            forall|v: DataFilterView|
                valid_data_filter(v) && #[trigger] starts_at(buf@, pos as int, enc_data_filter(v))
                    ==> r is Ok && r->Ok_0.0@ == v && r->Ok_0.1 == pos + enc_data_filter(v).len(),
            forall|v: DataFilterView|
                valid_data_filter(v) && #[trigger] cut_at(buf@, pos as int, enc_data_filter(v)) ==> r
                    == Err::<(DataFilter, usize), DecodeError>(DecodeError::UnexpectedEof),
            pos < buf@.len() && buf@[pos as int] > 2 ==> r == Err::<(DataFilter, usize), DecodeError>(
                DecodeError::UnknownVariant,
            ),
    {
        proof {
            assert forall|v: DataFilterView| #[trigger]
                starts_at(buf@, pos as int, enc_data_filter(v)) implies pos < buf@.len() && buf@[pos as int]
                == enc_data_filter(v)[0] && (v is AssetDefinition ==> starts_at(
                buf@,
                pos + 1,
                enc_pair(v->AssetDefinition_0),
            )) by {
                match v {
                    DataFilterView::AssetDefinition(id) => lemma_tagged(
                        buf@,
                        pos as int,
                        2u8,
                        enc_pair(id),
                    ),
                    _ => lemma_tagged(buf@, pos as int, enc_data_filter(v)[0], seq![]),
                }
                assert(seq![enc_data_filter(v)[0]] + seq![] =~= enc_data_filter(v) || v is AssetDefinition);
            }
            assert forall|v: DataFilterView| #[trigger]
                cut_at(buf@, pos as int, enc_data_filter(v)) implies pos == buf@.len() || (
                v is AssetDefinition && buf@[pos as int] == 2 && cut_at(
                buf@,
                pos + 1,
                enc_pair(v->AssetDefinition_0),
            )) by {
                match v {
                    DataFilterView::AssetDefinition(id) => lemma_tagged(
                        buf@,
                        pos as int,
                        2u8,
                        enc_pair(id),
                    ),
                    _ => {},
                }
            }
        }
        if pos >= buf.len() {
            return Err(DecodeError::UnexpectedEof);
        }
        let tag = buf[pos];
        if tag == 0 {
            assert(buf@.subrange(pos as int, pos + 1) =~= seq![0u8]);
            Ok((DataFilter::AcceptAll, pos + 1))
        } else if tag == 1 {
            assert(buf@.subrange(pos as int, pos + 1) =~= seq![1u8]);
            Ok((DataFilter::AssetDefinitionCreated, pos + 1))
        } else if tag == 2 {
            match AssetDefinitionId::decode_from(buf, pos + 1) {
                Err(e) => Err(e),
                Ok((id, p)) => {
                    id.name.check_valid();
                    id.domain.name.check_valid();
                    proof {
                        lemma_tagged(buf@, pos as int, 2u8, enc_pair(id@));
                    }
                    Ok((DataFilter::AssetDefinition(id), p))
                },
            }
        } else {
            Err(DecodeError::UnknownVariant)
        }
    }
}

/// What makes a trigger fire: a time schedule or data events.
#[derive(Debug, Clone)]
pub enum EventFilter {
    Time(TimeSchedule),
    Data(DataFilter),
}

pub enum EventFilterView {
    Time(TimeSchedule),
    Data(DataFilterView),
}

impl View for EventFilter {
    type V = EventFilterView;

    open spec fn view(&self) -> EventFilterView {
        match self {
            EventFilter::Time(t) => EventFilterView::Time(*t),
            EventFilter::Data(d) => EventFilterView::Data(d@),
        }
    }
}

pub open spec fn valid_event_filter(v: EventFilterView) -> bool {
    match v {
        EventFilterView::Data(d) => valid_data_filter(d),
        _ => true,
    }
}

pub open spec fn enc_event_filter(v: EventFilterView) -> Seq<u8> {
    match v {
        EventFilterView::Time(t) => seq![0u8] + enc_schedule(t),
        EventFilterView::Data(d) => seq![1u8] + enc_data_filter(d),
    }
}

impl EventFilter {
    pub fn encode_to(&self, out: &mut Vec<u8>)
        ensures
            final(out)@ == old(out)@ + enc_event_filter(self@),
    {
        match self {
            EventFilter::Time(t) => {
                out.push(0u8);
                t.encode_to(out);
            },
            EventFilter::Data(d) => {
                out.push(1u8);
                d.encode_to(out);
            },
        }
        assert(final(out)@ =~= old(out)@ + enc_event_filter(self@));
    }

    pub fn decode_from(buf: &[u8], pos: usize) -> (r: Result<(EventFilter, usize), DecodeError>)
        requires
            pos <= buf@.len(),
        ensures
            r is Ok ==> valid_event_filter(r->Ok_0.0@) && starts_at(
                buf@,
                pos as int,
                enc_event_filter(r->Ok_0.0@),
            ) && r->Ok_0.1 == pos + enc_event_filter(r->Ok_0.0@).len(),
            forall|v: EventFilterView|
                valid_event_filter(v) && #[trigger] starts_at(buf@, pos as int, enc_event_filter(v))
                    ==> r is Ok && r->Ok_0.0@ == v && r->Ok_0.1 == pos + enc_event_filter(v).len(),
            forall|v: EventFilterView|
                valid_event_filter(v) && #[trigger] cut_at(buf@, pos as int, enc_event_filter(v)) ==> r
                    == Err::<(EventFilter, usize), DecodeError>(DecodeError::UnexpectedEof),
            pos < buf@.len() && buf@[pos as int] > 1 ==> r == Err::<(EventFilter, usize), DecodeError>(
                DecodeError::UnknownVariant,
            ),
    {
        proof {
            assert forall|v: EventFilterView| #[trigger]
                starts_at(buf@, pos as int, enc_event_filter(v)) implies pos < buf@.len() && (match v {
                EventFilterView::Time(t) => buf@[pos as int] == 0 && starts_at(
                    buf@,
                    pos + 1,
                    enc_schedule(t),
                ),
                EventFilterView::Data(d) => buf@[pos as int] == 1 && starts_at(
                    buf@,
                    pos + 1,
                    enc_data_filter(d),
                ),
            }) by {
                match v {
                    EventFilterView::Time(t) => lemma_tagged(buf@, pos as int, 0u8, enc_schedule(t)),
                    EventFilterView::Data(d) => lemma_tagged(buf@, pos as int, 1u8, enc_data_filter(d)),
                }
            }
            assert forall|v: EventFilterView| #[trigger]
                cut_at(buf@, pos as int, enc_event_filter(v)) implies pos == buf@.len() || (match v {
                EventFilterView::Time(t) => buf@[pos as int] == 0 && cut_at(
                    buf@,
                    pos + 1,
                    enc_schedule(t),
                ),
                EventFilterView::Data(d) => buf@[pos as int] == 1 && cut_at(
                    buf@,
                    pos + 1,
                    enc_data_filter(d),
                ),
            }) by {
                match v {
                    EventFilterView::Time(t) => lemma_tagged(buf@, pos as int, 0u8, enc_schedule(t)),
                    EventFilterView::Data(d) => lemma_tagged(buf@, pos as int, 1u8, enc_data_filter(d)),
                }
            }
        }
        if pos >= buf.len() {
            return Err(DecodeError::UnexpectedEof);
        }
        let tag = buf[pos];
        if tag == 0 {
            match TimeSchedule::decode_from(buf, pos + 1) {
                Err(e) => Err(e),
                Ok((t, p)) => {
                    proof {
                        lemma_tagged(buf@, pos as int, 0u8, enc_schedule(t));
                    }
                    Ok((EventFilter::Time(t), p))
                },
            }
        } else if tag == 1 {
            match DataFilter::decode_from(buf, pos + 1) {
                Err(e) => Err(e),
                Ok((d, p)) => {
                    proof {
                        lemma_tagged(buf@, pos as int, 1u8, enc_data_filter(d@));
                    }
                    Ok((EventFilter::Data(d), p))
                },
            }
        } else {
            Err(DecodeError::UnknownVariant)
        }
    }
}

/// A step of a trigger's program.
#[derive(Debug, Clone)]
pub enum Instruction {
    /// Adds `quantity` to the holding `object`.
    Mint { object: AssetId, quantity: u32 },
    /// Takes `quantity` from the holding `object`.
    Burn { object: AssetId, quantity: u32 },
}

pub type AssetIdView = ((Seq<u8>, Seq<u8>), (Seq<u8>, Seq<u8>));

pub enum InstructionView {
    Mint(AssetIdView, u32),
    Burn(AssetIdView, u32),
}

impl View for Instruction {
    type V = InstructionView;

    open spec fn view(&self) -> InstructionView {
        match self {
            Instruction::Mint { object, quantity } => InstructionView::Mint(object@, *quantity),
            Instruction::Burn { object, quantity } => InstructionView::Burn(object@, *quantity),
        }
    }
}

pub open spec fn valid_instruction(v: InstructionView) -> bool {
    match v {
        InstructionView::Mint(a, _) => valid_asset_id(a),
        InstructionView::Burn(a, _) => valid_asset_id(a),
    }
}

/// The fields of an instruction: the holding, then the quantity.
pub open spec fn enc_amount(a: AssetIdView, q: u32) -> Seq<u8> {
    enc_asset_id(a) + enc_compact(q as nat)
}

pub open spec fn enc_instruction(v: InstructionView) -> Seq<u8> {
    match v {
        InstructionView::Mint(a, q) => seq![0u8] + enc_amount(a, q),
        InstructionView::Burn(a, q) => seq![1u8] + enc_amount(a, q),
    }
}

fn decode_amount(buf: &[u8], pos: usize) -> (r: Result<(AssetId, u32, usize), DecodeError>)
    requires
        pos <= buf@.len(),
    ensures
        r is Ok ==> valid_asset_id(r->Ok_0.0@) && starts_at(
            buf@,
            pos as int,
            enc_amount(r->Ok_0.0@, r->Ok_0.1),
        ) && r->Ok_0.2 == pos + enc_amount(r->Ok_0.0@, r->Ok_0.1).len(),
        forall|a: AssetIdView, q: u32|
            valid_asset_id(a) && #[trigger] starts_at(buf@, pos as int, enc_amount(a, q)) ==> r is Ok
                && r->Ok_0.0@ == a && r->Ok_0.1 == q && r->Ok_0.2 == pos + enc_amount(a, q).len(),
        forall|a: AssetIdView, q: u32|
            valid_asset_id(a) && #[trigger] cut_at(buf@, pos as int, enc_amount(a, q)) ==> r == Err::<
                (AssetId, u32, usize),
                DecodeError,
            >(DecodeError::UnexpectedEof),
{
    proof {
        assert forall|a: AssetIdView, q: u32| #[trigger]
            starts_at(buf@, pos as int, enc_amount(a, q)) implies starts_at(
            buf@,
            pos as int,
            enc_asset_id(a),
        ) && starts_at(buf@, pos + enc_asset_id(a).len(), enc_compact(q as nat)) by {
            lemma_starts_at_concat(buf@, pos as int, enc_asset_id(a), enc_compact(q as nat));
        }
        assert forall|a: AssetIdView, q: u32| #[trigger]
            cut_at(buf@, pos as int, enc_amount(a, q)) implies cut_at(buf@, pos as int, enc_asset_id(a))
            || (starts_at(buf@, pos as int, enc_asset_id(a)) && cut_at(
            buf@,
            pos + enc_asset_id(a).len(),
            enc_compact(q as nat),
        )) by {
            lemma_cut_at_concat(buf@, pos as int, enc_asset_id(a), enc_compact(q as nat));
        }
    }
    let (object, p1) = match AssetId::decode_from(buf, pos) {
        Err(e) => {
            return Err(e);
        },
        Ok(x) => x,
    };
    let (quantity, p2) = match decode_u32(buf, p1) {
        Err(e) => {
            return Err(e);
        },
        Ok(x) => x,
    };
    object.definition.name.check_valid();
    object.definition.domain.name.check_valid();
    object.account.signatory.check_valid();
    object.account.domain.name.check_valid();
    proof {
        lemma_starts_at_concat(buf@, pos as int, enc_asset_id(object@), enc_compact(quantity as nat));
    }
    Ok((object, quantity, p2))
}

impl Instruction {
    pub fn encode_to(&self, out: &mut Vec<u8>)
        ensures
            final(out)@ == old(out)@ + enc_instruction(self@),
    {
        match self {
            Instruction::Mint { object, quantity } => {
                out.push(0u8);
                object.encode_to(out);
                encode_u32(*quantity, out);
            },
            Instruction::Burn { object, quantity } => {
                out.push(1u8);
                object.encode_to(out);
                encode_u32(*quantity, out);
            },
        }
        assert(final(out)@ =~= old(out)@ + enc_instruction(self@));
    }

    pub fn decode_from(buf: &[u8], pos: usize) -> (r: Result<(Instruction, usize), DecodeError>)
        requires
            pos <= buf@.len(),
        ensures
            r is Ok ==> valid_instruction(r->Ok_0.0@) && starts_at(
                buf@,
                pos as int,
                enc_instruction(r->Ok_0.0@),
            ) && r->Ok_0.1 == pos + enc_instruction(r->Ok_0.0@).len(),
            forall|v: InstructionView|
                valid_instruction(v) && #[trigger] starts_at(buf@, pos as int, enc_instruction(v)) ==> r
                    is Ok && r->Ok_0.0@ == v && r->Ok_0.1 == pos + enc_instruction(v).len(),
            forall|v: InstructionView|
                valid_instruction(v) && #[trigger] cut_at(buf@, pos as int, enc_instruction(v)) ==> r
                    == Err::<(Instruction, usize), DecodeError>(DecodeError::UnexpectedEof),
            pos < buf@.len() && buf@[pos as int] > 1 ==> r == Err::<(Instruction, usize), DecodeError>(
                DecodeError::UnknownVariant,
            ),
    {
        proof {
            assert forall|v: InstructionView| #[trigger]
                starts_at(buf@, pos as int, enc_instruction(v)) implies pos < buf@.len() && (match v {
                InstructionView::Mint(a, q) => buf@[pos as int] == 0 && starts_at(
                    buf@,
                    pos + 1,
                    enc_amount(a, q),
                ),
                InstructionView::Burn(a, q) => buf@[pos as int] == 1 && starts_at(
                    buf@,
                    pos + 1,
                    enc_amount(a, q),
                ),
            }) by {
                match v {
                    InstructionView::Mint(a, q) => lemma_tagged(buf@, pos as int, 0u8, enc_amount(a, q)),
                    InstructionView::Burn(a, q) => lemma_tagged(buf@, pos as int, 1u8, enc_amount(a, q)),
                }
            }
            assert forall|v: InstructionView| #[trigger]
                cut_at(buf@, pos as int, enc_instruction(v)) implies pos == buf@.len() || (match v {
                InstructionView::Mint(a, q) => buf@[pos as int] == 0 && cut_at(
                    buf@,
                    pos + 1,
                    enc_amount(a, q),
                ),
                InstructionView::Burn(a, q) => buf@[pos as int] == 1 && cut_at(
                    buf@,
                    pos + 1,
                    enc_amount(a, q),
                ),
            }) by {
                match v {
                    InstructionView::Mint(a, q) => lemma_tagged(buf@, pos as int, 0u8, enc_amount(a, q)),
                    InstructionView::Burn(a, q) => lemma_tagged(buf@, pos as int, 1u8, enc_amount(a, q)),
                }
            }
        }
        if pos >= buf.len() {
            return Err(DecodeError::UnexpectedEof);
        }
        let tag = buf[pos];
        if tag > 1 {
            return Err(DecodeError::UnknownVariant);
        }
        match decode_amount(buf, pos + 1) {
            Err(e) => Err(e),
            Ok((object, quantity, p)) => {
                proof {
                    lemma_tagged(buf@, pos as int, tag, enc_amount(object@, quantity));
                }
                if tag == 0 {
                    Ok((Instruction::Mint { object, quantity }, p))
                } else {
                    Ok((Instruction::Burn { object, quantity }, p))
                }
            },
        }
    }
}

/// The instructions of a sequence, one after another.
pub open spec fn enc_instructions(s: Seq<InstructionView>) -> Seq<u8>
    decreases s.len(),
{
    if s.len() == 0 {
        seq![]
    } else {
        enc_instructions(s.drop_last()) + enc_instruction(s.last())
    }
}

/// A sequence of instructions: its length in compact form, then the instructions.
pub open spec fn enc_executable(s: Seq<InstructionView>) -> Seq<u8> {
    enc_compact(s.len()) + enc_instructions(s)
}

pub open spec fn valid_executable(s: Seq<InstructionView>) -> bool {
    s.len() <= usize::MAX && forall|i: int| 0 <= i < s.len() ==> valid_instruction(#[trigger] s[i])
}

pub open spec fn views(s: Seq<Instruction>) -> Seq<InstructionView> {
    s.map_values(|x: Instruction| x@)
}

/// The encoding of the first `j` instructions begins the encoding of all of them.
pub proof fn lemma_instructions_prefix(s: Seq<InstructionView>, j: int)
    requires
        0 <= j <= s.len(),
    ensures
        enc_instructions(s.take(j)).len() <= enc_instructions(s).len(),
        enc_instructions(s).take(enc_instructions(s.take(j)).len() as int) == enc_instructions(
            s.take(j),
        ),
    decreases s.len(),
{
    if j == s.len() {
        assert(s.take(j) =~= s);
        assert(enc_instructions(s).take(enc_instructions(s).len() as int) =~= enc_instructions(s));
    } else {
        lemma_instructions_prefix(s.drop_last(), j);
        assert(s.drop_last().take(j) =~= s.take(j));
        let a = enc_instructions(s.take(j));
        assert(enc_instructions(s).take(a.len() as int) =~= enc_instructions(s.drop_last()).take(
            a.len() as int,
        ));
    }
}


/// Where the `k`-th instruction of `v` stands, once the first `k` stand at `p0`.
proof fn lemma_instruction_step(buf: Seq<u8>, p0: int, v: Seq<InstructionView>, k: int)
    requires
        valid_executable(v),
        0 <= k < v.len(),
        starts_at(buf, p0, enc_instructions(v.take(k))),
    ensures
        valid_instruction(v[k]),
        enc_instructions(v.take(k + 1)) == enc_instructions(v.take(k)) + enc_instruction(v[k]),
        starts_at(buf, p0, enc_instructions(v)) ==> starts_at(
            buf,
            p0 + enc_instructions(v.take(k)).len(),
            enc_instruction(v[k]),
        ),
        cut_at(buf, p0, enc_instructions(v)) ==> cut_at(
            buf,
            p0 + enc_instructions(v.take(k)).len(),
            enc_instruction(v[k]),
        ) || starts_at(buf, p0 + enc_instructions(v.take(k)).len(), enc_instruction(v[k])),
{
    lemma_instructions_prefix(v, k + 1);
    assert(v.take(k + 1).drop_last() =~= v.take(k));
    let a = enc_instructions(v.take(k));
    let b = enc_instruction(v[k]);
    let t = enc_instructions(v).skip((a + b).len() as int);
    assert(enc_instructions(v) =~= (a + b) + t);
    lemma_starts_at_concat(buf, p0, a + b, t);
    lemma_starts_at_concat(buf, p0, a, b);
    if cut_at(buf, p0, enc_instructions(v)) {
        lemma_cut_at_concat(buf, p0, a + b, t);
        if cut_at(buf, p0, a + b) {
            lemma_cut_at_concat(buf, p0, a, b);
        }
    }
}

/// The ordered program that a trigger runs.
#[derive(Debug, Clone)]
pub struct Executable {
    pub instructions: Vec<Instruction>,
}

impl View for Executable {
    type V = Seq<InstructionView>;

    open spec fn view(&self) -> Seq<InstructionView> {
        views(self.instructions@)
    }
}

impl Executable {
    pub fn new(instructions: Vec<Instruction>) -> (r: Executable)
        ensures
            r@ == views(instructions@),
    {
        Executable { instructions }
    }

    pub fn encode_to(&self, out: &mut Vec<u8>)
        ensures
            final(out)@ == old(out)@ + enc_executable(self@),
    {
        let n = self.instructions.len();
        encode_compact(n as u64, out);
        let ghost start = out@;
        let mut i: usize = 0;
        while i < n
            invariant
                n == self.instructions@.len(),
                i <= n,
                out@ == start + enc_instructions(views(self.instructions@).take(i as int)),
            decreases n - i,
        {
            self.instructions[i].encode_to(out);
            proof {
                let vs = views(self.instructions@);
                assert(vs.take(i + 1).drop_last() =~= vs.take(i as int));
                assert(out@ =~= start + enc_instructions(vs.take(i + 1)));
            }
            i = i + 1;
        }
        proof {
            let vs = views(self.instructions@);
            assert(vs.take(n as int) =~= vs);
            assert(final(out)@ =~= old(out)@ + enc_executable(self@));
        }
    }

    pub fn decode_from(buf: &[u8], pos: usize) -> (r: Result<(Executable, usize), DecodeError>)
        requires
            pos <= buf@.len(),
        ensures
            r is Ok ==> valid_executable(r->Ok_0.0@) && starts_at(
                buf@,
                pos as int,
                enc_executable(r->Ok_0.0@),
            ) && r->Ok_0.1 == pos + enc_executable(r->Ok_0.0@).len(),
            forall|v: Seq<InstructionView>|
                valid_executable(v) && #[trigger] starts_at(buf@, pos as int, enc_executable(v)) ==> r
                    is Ok && r->Ok_0.0@ == v && r->Ok_0.1 == pos + enc_executable(v).len(),
            forall|v: Seq<InstructionView>|
                valid_executable(v) && #[trigger] cut_at(buf@, pos as int, enc_executable(v)) ==> r
                    == Err::<(Executable, usize), DecodeError>(DecodeError::UnexpectedEof),
    {
        let blen = buf.len();
        proof {
            assert forall|v: Seq<InstructionView>|
                valid_executable(v) && #[trigger] starts_at(
                    buf@,
                    pos as int,
                    enc_executable(v),
                ) implies starts_at(buf@, pos as int, enc_compact((v.len() as u64) as nat))
                && starts_at(buf@, pos + enc_compact(v.len()).len(), enc_instructions(v)) by {
                lemma_starts_at_concat(buf@, pos as int, enc_compact(v.len()), enc_instructions(v));
            }
            assert forall|v: Seq<InstructionView>|
                valid_executable(v) && #[trigger] cut_at(buf@, pos as int, enc_executable(v)) implies cut_at(
                buf@,
                pos as int,
                enc_compact((v.len() as u64) as nat),
            ) || (starts_at(buf@, pos as int, enc_compact((v.len() as u64) as nat)) && cut_at(
                buf@,
                pos + enc_compact(v.len()).len(),
                enc_instructions(v),
            )) by {
                lemma_cut_at_concat(buf@, pos as int, enc_compact(v.len()), enc_instructions(v));
            }
        }
        let (n, p0) = match decode_compact(buf, pos) {
            Err(e) => {
                return Err(e);
            },
            Ok(x) => x,
        };
        let mut items: Vec<Instruction> = Vec::new();
        let mut p: usize = p0;
        let mut k: u64 = 0;
        proof {
            assert(enc_instructions(views(items@)) =~= seq![]);
            assert(buf@.subrange(p0 as int, p0 as int) =~= seq![]);
            assert forall|v: Seq<InstructionView>|
                valid_executable(v) && #[trigger] starts_at(
                    buf@,
                    pos as int,
                    enc_executable(v),
                ) implies v.len() == n && views(items@) =~= v.take(0) && starts_at(
                buf@,
                p0 as int,
                enc_instructions(v),
            ) by {}
            assert forall|v: Seq<InstructionView>|
                valid_executable(v) && #[trigger] cut_at(
                    buf@,
                    pos as int,
                    enc_executable(v),
                ) implies v.len() == n && views(items@) =~= v.take(0) && cut_at(
                buf@,
                p0 as int,
                enc_instructions(v),
            ) by {}
        }
        while k < n
            invariant
                blen == buf@.len(),
                p0 <= p <= buf@.len(),
                k <= n,
                items@.len() == k,
                starts_at(buf@, pos as int, enc_compact(n as nat)),
                p0 == pos + enc_compact(n as nat).len(),
                forall|i: int| 0 <= i < k ==> valid_instruction(#[trigger] views(items@)[i]),
                starts_at(buf@, p0 as int, enc_instructions(views(items@))),
                p == p0 + enc_instructions(views(items@)).len(),
                forall|v: Seq<InstructionView>|
                    valid_executable(v) && #[trigger] starts_at(buf@, pos as int, enc_executable(v))
                        ==> v.len() == n && views(items@) == v.take(k as int) && starts_at(
                        buf@,
                        p0 as int,
                        enc_instructions(v),
                    ),
                forall|v: Seq<InstructionView>|
                    valid_executable(v) && #[trigger] cut_at(buf@, pos as int, enc_executable(v)) ==> v.len()
                        == n && views(items@) == v.take(k as int) && cut_at(
                        buf@,
                        p0 as int,
                        enc_instructions(v),
                    ),
            decreases n - k,
        {
            let ghost before = views(items@);
            let (x, p2) = match Instruction::decode_from(buf, p) {
                Err(e) => {
                    proof {
                        assert forall|v: Seq<InstructionView>|
                            valid_executable(v) && #[trigger] starts_at(
                                buf@,
                                pos as int,
                                enc_executable(v),
                            ) implies false by {
                            lemma_instruction_step(buf@, p0 as int, v, k as int);
                        }
                        assert forall|v: Seq<InstructionView>|
                            valid_executable(v) && #[trigger] cut_at(
                                buf@,
                                pos as int,
                                enc_executable(v),
                            ) implies e == DecodeError::UnexpectedEof by {
                            lemma_instruction_step(buf@, p0 as int, v, k as int);
                        }
                    }
                    return Err(e);
                },
                Ok(x) => x,
            };
            items.push(x);
            proof {
                let after = views(items@);
                assert(after =~= before.push(x@));
                assert(after.drop_last() =~= before);
                lemma_starts_at_concat(buf@, p0 as int, enc_instructions(before), enc_instruction(x@));
                assert forall|v: Seq<InstructionView>|
                    valid_executable(v) && #[trigger] starts_at(
                        buf@,
                        pos as int,
                        enc_executable(v),
                    ) implies v.len() == n && after == v.take(k + 1) && starts_at(
                        buf@,
                        p0 as int,
                        enc_instructions(v),
                    ) by {
                    lemma_instruction_step(buf@, p0 as int, v, k as int);
                    assert(after =~= v.take(k + 1));
                }
                assert forall|v: Seq<InstructionView>|
                    valid_executable(v) && #[trigger] cut_at(
                        buf@,
                        pos as int,
                        enc_executable(v),
                    ) implies v.len() == n && after == v.take(k + 1) && cut_at(
                        buf@,
                        p0 as int,
                        enc_instructions(v),
                    ) by {
                    lemma_instruction_step(buf@, p0 as int, v, k as int);
                    assert(after =~= v.take(k + 1));
                }
                assert forall|i: int| 0 <= i < k + 1 implies valid_instruction(#[trigger] after[i]) by {
                    if i < k {
                        assert(after[i] == before[i]);
                    }
                }
            }
            p = p2;
            k = k + 1;
        }
        let count = items.len();
        let e = Executable { instructions: items };
        proof {
            assert(views(items@).len() == n);
            lemma_starts_at_concat(buf@, pos as int, enc_compact(n as nat), enc_instructions(views(items@)));
            assert forall|v: Seq<InstructionView>|
                valid_executable(v) && #[trigger] starts_at(
                    buf@,
                    pos as int,
                    enc_executable(v),
                ) implies e@ == v by {
                assert(v.take(n as int) =~= v);
            }
            assert forall|v: Seq<InstructionView>|
                valid_executable(v) && #[trigger] cut_at(buf@, pos as int, enc_executable(v)) implies false by {
                assert(v.take(n as int) =~= v);
            }
        }
        Ok((e, p))
    }
}

/// What a trigger does and when: its program, how often it may run, the
/// account it acts for, and the events it waits for.
#[derive(Debug, Clone)]
pub struct Action {
    pub executable: Executable,
    pub repeats: Repeats,
    pub authority: AccountId,
    pub filter: EventFilter,
}

pub struct ActionView {
    pub executable: Seq<InstructionView>,
    pub repeats: Repeats,
    pub authority: (Seq<u8>, Seq<u8>),
    pub filter: EventFilterView,
}

impl View for Action {
    type V = ActionView;

    open spec fn view(&self) -> ActionView {
        ActionView {
            executable: self.executable@,
            repeats: self.repeats,
            authority: self.authority@,
            filter: self.filter@,
        }
    }
}

pub open spec fn valid_action(v: ActionView) -> bool {
    valid_executable(v.executable) && valid_pair(v.authority) && valid_event_filter(v.filter)
}

/// The fields of an action in declared order.
pub open spec fn enc_action(v: ActionView) -> Seq<u8> {
    enc_executable(v.executable) + enc_repeats(v.repeats) + enc_pair(v.authority) + enc_event_filter(
        v.filter,
    )
}

impl Action {
    pub fn new(executable: Executable, repeats: Repeats, authority: AccountId, filter: EventFilter) -> (r: Action)
        ensures
            r@ == (ActionView {
                executable: executable@,
                repeats,
                authority: authority@,
                filter: filter@,
            }),
    {
        Action { executable, repeats, authority, filter }
    }

    pub fn encode_to(&self, out: &mut Vec<u8>)
        ensures
            final(out)@ == old(out)@ + enc_action(self@),
    {
        self.executable.encode_to(out);
        self.repeats.encode_to(out);
        self.authority.encode_to(out);
        self.filter.encode_to(out);
        assert(final(out)@ =~= old(out)@ + enc_action(self@));
    }

    #[verifier::rlimit(100)]
    #[verifier::spinoff_prover]
    pub fn decode_from(buf: &[u8], pos: usize) -> (r: Result<(Action, usize), DecodeError>)
        requires
            pos <= buf@.len(),
        ensures
            r is Ok ==> valid_action(r->Ok_0.0@) && starts_at(buf@, pos as int, enc_action(r->Ok_0.0@))
                && r->Ok_0.1 == pos + enc_action(r->Ok_0.0@).len(),
            forall|v: ActionView|
                valid_action(v) && #[trigger] starts_at(buf@, pos as int, enc_action(v)) ==> r is Ok
                    && r->Ok_0.0@ == v && r->Ok_0.1 == pos + enc_action(v).len(),
            forall|v: ActionView|
                valid_action(v) && #[trigger] cut_at(buf@, pos as int, enc_action(v)) ==> r == Err::<
                    (Action, usize),
                    DecodeError,
                >(DecodeError::UnexpectedEof),
    {
        proof {
            assert forall|v: ActionView| #[trigger] starts_at(buf@, pos as int, enc_action(v)) || cut_at(
                buf@,
                pos as int,
                enc_action(v),
            ) implies {
                let e = enc_executable(v.executable);
                let r = enc_repeats(v.repeats);
                let a = enc_pair(v.authority);
                let f = enc_event_filter(v.filter);
                &&& starts_at(buf@, pos as int, enc_action(v)) ==> starts_at(buf@, pos as int, e)
                    && starts_at(buf@, pos + e.len(), r) && starts_at(buf@, pos + e.len() + r.len(), a)
                    && starts_at(buf@, pos + e.len() + r.len() + a.len(), f)
                &&& cut_at(buf@, pos as int, enc_action(v)) ==> cut_at(buf@, pos as int, e) || (
                starts_at(buf@, pos as int, e) && cut_at(buf@, pos + e.len(), r)) || (starts_at(
                    buf@,
                    pos as int,
                    e,
                ) && starts_at(buf@, pos + e.len(), r) && cut_at(buf@, pos + e.len() + r.len(), a))
                    || (starts_at(buf@, pos as int, e) && starts_at(buf@, pos + e.len(), r)
                    && starts_at(buf@, pos + e.len() + r.len(), a) && cut_at(
                    buf@,
                    pos + e.len() + r.len() + a.len(),
                    f,
                ))
            } by {
                lemma_four(
                    buf@,
                    pos as int,
                    enc_executable(v.executable),
                    enc_repeats(v.repeats),
                    enc_pair(v.authority),
                    enc_event_filter(v.filter),
                );
            }
        }
        let (executable, p1) = match Executable::decode_from(buf, pos) {
            Err(e) => {
                proof {
                    assert forall|v: ActionView|
                        valid_action(v) && #[trigger] starts_at(buf@, pos as int, enc_action(v)) implies false by {
                        lemma_four(
                                buf@,
                                pos as int,
                                enc_executable(v.executable),
                                enc_repeats(v.repeats),
                                enc_pair(v.authority),
                                enc_event_filter(v.filter),
                            );
                        
                    }
                    assert forall|v: ActionView|
                        valid_action(v) && #[trigger] cut_at(buf@, pos as int, enc_action(v)) implies e
                            == DecodeError::UnexpectedEof by {
                        lemma_four(
                                buf@,
                                pos as int,
                                enc_executable(v.executable),
                                enc_repeats(v.repeats),
                                enc_pair(v.authority),
                                enc_event_filter(v.filter),
                            );
                        
                    }
                }
                return Err(e);
            },
            Ok(x) => x,
        };
        let (repeats, p2) = match Repeats::decode_from(buf, p1) {
            Err(e) => {
                proof {
                    assert forall|v: ActionView|
                        valid_action(v) && #[trigger] starts_at(buf@, pos as int, enc_action(v)) implies false by {
                        lemma_four(
                                buf@,
                                pos as int,
                                enc_executable(v.executable),
                                enc_repeats(v.repeats),
                                enc_pair(v.authority),
                                enc_event_filter(v.filter),
                            );
                        assert(starts_at(buf@, pos as int, enc_executable(v.executable)) ==> executable@ == v.executable);
                    }
                    assert forall|v: ActionView|
                        valid_action(v) && #[trigger] cut_at(buf@, pos as int, enc_action(v)) implies e
                            == DecodeError::UnexpectedEof by {
                        lemma_four(
                                buf@,
                                pos as int,
                                enc_executable(v.executable),
                                enc_repeats(v.repeats),
                                enc_pair(v.authority),
                                enc_event_filter(v.filter),
                            );
                        assert(starts_at(buf@, pos as int, enc_executable(v.executable)) ==> executable@ == v.executable);
                    }
                }
                return Err(e);
            },
            Ok(x) => x,
        };
        let (authority, p3) = match AccountId::decode_from(buf, p2) {
            Err(e) => {
                proof {
                    assert forall|v: ActionView|
                        valid_action(v) && #[trigger] starts_at(buf@, pos as int, enc_action(v)) implies false by {
                        lemma_four(
                                buf@,
                                pos as int,
                                enc_executable(v.executable),
                                enc_repeats(v.repeats),
                                enc_pair(v.authority),
                                enc_event_filter(v.filter),
                            );
                        assert(starts_at(buf@, pos as int, enc_executable(v.executable)) ==> executable@ == v.executable);
                        assert(starts_at(buf@, pos + enc_executable(v.executable).len(), enc_repeats(v.repeats)) ==> repeats == v.repeats);
                    }
                    assert forall|v: ActionView|
                        valid_action(v) && #[trigger] cut_at(buf@, pos as int, enc_action(v)) implies e
                            == DecodeError::UnexpectedEof by {
                        lemma_four(
                                buf@,
                                pos as int,
                                enc_executable(v.executable),
                                enc_repeats(v.repeats),
                                enc_pair(v.authority),
                                enc_event_filter(v.filter),
                            );
                        assert(starts_at(buf@, pos as int, enc_executable(v.executable)) ==> executable@ == v.executable);
                        assert(starts_at(buf@, pos + enc_executable(v.executable).len(), enc_repeats(v.repeats)) ==> repeats == v.repeats);
                    }
                }
                return Err(e);
            },
            Ok(x) => x,
        };
        let (filter, p4) = match EventFilter::decode_from(buf, p3) {
            Err(e) => {
                proof {
                    assert forall|v: ActionView|
                        valid_action(v) && #[trigger] starts_at(buf@, pos as int, enc_action(v)) implies false by {
                        lemma_four(
                                buf@,
                                pos as int,
                                enc_executable(v.executable),
                                enc_repeats(v.repeats),
                                enc_pair(v.authority),
                                enc_event_filter(v.filter),
                            );
                        assert(starts_at(buf@, pos as int, enc_executable(v.executable)) ==> executable@ == v.executable);
                        assert(starts_at(buf@, pos + enc_executable(v.executable).len(), enc_repeats(v.repeats)) ==> repeats == v.repeats);
                        assert(starts_at(buf@, pos + enc_executable(v.executable).len() + enc_repeats(v.repeats).len(), enc_pair(v.authority)) ==> authority@ == v.authority);
                    }
                    assert forall|v: ActionView|
                        valid_action(v) && #[trigger] cut_at(buf@, pos as int, enc_action(v)) implies e
                            == DecodeError::UnexpectedEof by {
                        lemma_four(
                                buf@,
                                pos as int,
                                enc_executable(v.executable),
                                enc_repeats(v.repeats),
                                enc_pair(v.authority),
                                enc_event_filter(v.filter),
                            );
                        assert(starts_at(buf@, pos as int, enc_executable(v.executable)) ==> executable@ == v.executable);
                        assert(starts_at(buf@, pos + enc_executable(v.executable).len(), enc_repeats(v.repeats)) ==> repeats == v.repeats);
                        assert(starts_at(buf@, pos + enc_executable(v.executable).len() + enc_repeats(v.repeats).len(), enc_pair(v.authority)) ==> authority@ == v.authority);
                    }
                }
                return Err(e);
            },
            Ok(x) => x,
        };
        authority.signatory.check_valid();
        authority.domain.name.check_valid();
        let act = Action { executable, repeats, authority, filter };
        proof {
            lemma_four(
                buf@,
                pos as int,
                enc_executable(act@.executable),
                enc_repeats(act@.repeats),
                enc_pair(act@.authority),
                enc_event_filter(act@.filter),
            );
            assert forall|v: ActionView|
                valid_action(v) && #[trigger] starts_at(buf@, pos as int, enc_action(v)) implies act@ == v by {
                lemma_four(
                                buf@,
                                pos as int,
                                enc_executable(v.executable),
                                enc_repeats(v.repeats),
                                enc_pair(v.authority),
                                enc_event_filter(v.filter),
                            );
                assert(starts_at(buf@, pos as int, enc_executable(v.executable)) ==> executable@ == v.executable);
                        assert(starts_at(buf@, pos + enc_executable(v.executable).len(), enc_repeats(v.repeats)) ==> repeats == v.repeats);
                        assert(starts_at(buf@, pos + enc_executable(v.executable).len() + enc_repeats(v.repeats).len(), enc_pair(v.authority)) ==> authority@ == v.authority);
            }
            assert forall|v: ActionView|
                valid_action(v) && #[trigger] cut_at(buf@, pos as int, enc_action(v)) implies false by {
                lemma_four(
                                buf@,
                                pos as int,
                                enc_executable(v.executable),
                                enc_repeats(v.repeats),
                                enc_pair(v.authority),
                                enc_event_filter(v.filter),
                            );
                assert(starts_at(buf@, pos as int, enc_executable(v.executable)) ==> executable@ == v.executable);
                        assert(starts_at(buf@, pos + enc_executable(v.executable).len(), enc_repeats(v.repeats)) ==> repeats == v.repeats);
                        assert(starts_at(buf@, pos + enc_executable(v.executable).len() + enc_repeats(v.repeats).len(), enc_pair(v.authority)) ==> authority@ == v.authority);
            }
        }
        Ok((act, p4))
    }
}

/// A named action.
#[derive(Debug, Clone)]
pub struct Trigger {
    pub id: TriggerId,
    pub action: Action,
}

pub struct TriggerView {
    pub id: Seq<u8>,
    pub action: ActionView,
}

impl View for Trigger {
    type V = TriggerView;

    open spec fn view(&self) -> TriggerView {
        TriggerView { id: self.id@, action: self.action@ }
    }
}

pub open spec fn valid_trigger(v: TriggerView) -> bool {
    valid_name(v.id) && valid_action(v.action)
}

pub open spec fn enc_trigger(v: TriggerView) -> Seq<u8> {
    enc_bytes(v.id) + enc_action(v.action)
}

impl Trigger {
    pub fn new(id: TriggerId, action: Action) -> (r: Trigger)
        ensures
            r@ == (TriggerView { id: id@, action: action@ }),
    {
        Trigger { id, action }
    }

    pub fn encode_to(&self, out: &mut Vec<u8>)
        ensures
            final(out)@ == old(out)@ + enc_trigger(self@),
    {
        self.id.encode_to(out);
        self.action.encode_to(out);
        assert(final(out)@ =~= old(out)@ + enc_trigger(self@));
    }

    pub fn decode_from(buf: &[u8], pos: usize) -> (r: Result<(Trigger, usize), DecodeError>)
        requires
            pos <= buf@.len(),
        ensures
            r is Ok ==> valid_trigger(r->Ok_0.0@) && starts_at(buf@, pos as int, enc_trigger(r->Ok_0.0@))
                && r->Ok_0.1 == pos + enc_trigger(r->Ok_0.0@).len(),
            forall|v: TriggerView|
                valid_trigger(v) && #[trigger] starts_at(buf@, pos as int, enc_trigger(v)) ==> r is Ok
                    && r->Ok_0.0@ == v && r->Ok_0.1 == pos + enc_trigger(v).len(),
            forall|v: TriggerView|
                valid_trigger(v) && #[trigger] cut_at(buf@, pos as int, enc_trigger(v)) ==> r == Err::<
                    (Trigger, usize),
                    DecodeError,
                >(DecodeError::UnexpectedEof),
    {
        proof {
            assert forall|v: TriggerView| #[trigger]
                starts_at(buf@, pos as int, enc_trigger(v)) implies starts_at(
                buf@,
                pos as int,
                enc_bytes(v.id),
            ) && starts_at(buf@, pos + enc_bytes(v.id).len(), enc_action(v.action)) by {
                lemma_starts_at_concat(buf@, pos as int, enc_bytes(v.id), enc_action(v.action));
            }
            assert forall|v: TriggerView| #[trigger]
                cut_at(buf@, pos as int, enc_trigger(v)) implies cut_at(buf@, pos as int, enc_bytes(v.id))
                || (starts_at(buf@, pos as int, enc_bytes(v.id)) && cut_at(
                buf@,
                pos + enc_bytes(v.id).len(),
                enc_action(v.action),
            )) by {
                lemma_cut_at_concat(buf@, pos as int, enc_bytes(v.id), enc_action(v.action));
            }
        }
        let (id, p1) = match TriggerId::decode_from(buf, pos) {
            Err(e) => {
                return Err(e);
            },
            Ok(x) => x,
        };
        let (action, p2) = match Action::decode_from(buf, p1) {
            Err(e) => {
                return Err(e);
            },
            Ok(x) => x,
        };
        id.name.check_valid();
        proof {
            lemma_starts_at_concat(buf@, pos as int, enc_bytes(id@), enc_action(action@));
        }
        Ok((Trigger { id, action }, p2))
    }
}

impl Trigger {
    /// The encoding of the whole value.
    pub fn encode(&self) -> (r: Vec<u8>)
        ensures
            r@ == enc_trigger(self@),
    {
        let mut out: Vec<u8> = Vec::new();
        self.encode_to(&mut out);
        assert(out@ =~= enc_trigger(self@));
        out
    }

    /// Reads one value that fills `bytes`.
    pub fn decode(bytes: &[u8]) -> (r: Result<Trigger, DecodeError>)
        ensures
            r is Ok ==> valid_trigger(r->Ok_0@) && bytes@ == enc_trigger(r->Ok_0@),
            forall|v: TriggerView| valid_trigger(v) && bytes@ == #[trigger] enc_trigger(v) ==> r is Ok && r->Ok_0@ == v,
            forall|v: TriggerView|
                valid_trigger(v) && #[trigger] cut_at(bytes@, 0, enc_trigger(v)) ==> r == Err::<Trigger, DecodeError>(
                    DecodeError::UnexpectedEof,
                ),
            forall|v: TriggerView|
                valid_trigger(v) && #[trigger] starts_at(bytes@, 0, enc_trigger(v)) && enc_trigger(v).len() < bytes@.len()
                    ==> r == Err::<Trigger, DecodeError>(DecodeError::TrailingBytes),
    {
        proof {
            assert forall|v: TriggerView| bytes@ == #[trigger] enc_trigger(v) implies starts_at(bytes@, 0, enc_trigger(v)) by {
                lemma_whole(bytes@, enc_trigger(v));
            }
        }
        match Trigger::decode_from(bytes, 0) {
            Err(e) => Err(e),
            Ok((x, p)) => {
                if p != bytes.len() {
                    Err(DecodeError::TrailingBytes)
                } else {
                    proof {
                        lemma_whole(bytes@, enc_trigger(x@));
                    }
                    Ok(x)
                }
            },
        }
    }
}

impl Instruction {
    /// The encoding of the whole value.
    pub fn encode(&self) -> (r: Vec<u8>)
        ensures
            r@ == enc_instruction(self@),
    {
        let mut out: Vec<u8> = Vec::new();
        self.encode_to(&mut out);
        assert(out@ =~= enc_instruction(self@));
        out
    }

    /// Reads one value that fills `bytes`.
    pub fn decode(bytes: &[u8]) -> (r: Result<Instruction, DecodeError>)
        ensures
            r is Ok ==> valid_instruction(r->Ok_0@) && bytes@ == enc_instruction(r->Ok_0@),
            forall|v: InstructionView| valid_instruction(v) && bytes@ == #[trigger] enc_instruction(v) ==> r is Ok && r->Ok_0@ == v,
            forall|v: InstructionView|
                valid_instruction(v) && #[trigger] cut_at(bytes@, 0, enc_instruction(v)) ==> r == Err::<Instruction, DecodeError>(
                    DecodeError::UnexpectedEof,
                ),
            forall|v: InstructionView|
                valid_instruction(v) && #[trigger] starts_at(bytes@, 0, enc_instruction(v)) && enc_instruction(v).len() < bytes@.len()
                    ==> r == Err::<Instruction, DecodeError>(DecodeError::TrailingBytes),
            bytes@.len() > 0 && bytes@[0] > 1 ==> r == Err::<Instruction, DecodeError>(
                DecodeError::UnknownVariant,
            ),
    {
        proof {
            assert forall|v: InstructionView| bytes@ == #[trigger] enc_instruction(v) implies starts_at(bytes@, 0, enc_instruction(v)) by {
                lemma_whole(bytes@, enc_instruction(v));
            }
        }
        match Instruction::decode_from(bytes, 0) {
            Err(e) => Err(e),
            Ok((x, p)) => {
                if p != bytes.len() {
                    Err(DecodeError::TrailingBytes)
                } else {
                    proof {
                        lemma_whole(bytes@, enc_instruction(x@));
                    }
                    Ok(x)
                }
            },
        }
    }
}

impl EventFilter {
    /// The encoding of the whole value.
    pub fn encode(&self) -> (r: Vec<u8>)
        ensures
            r@ == enc_event_filter(self@),
    {
        let mut out: Vec<u8> = Vec::new();
        self.encode_to(&mut out);
        assert(out@ =~= enc_event_filter(self@));
        out
    }

    /// Reads one value that fills `bytes`.
    pub fn decode(bytes: &[u8]) -> (r: Result<EventFilter, DecodeError>)
        ensures
            r is Ok ==> valid_event_filter(r->Ok_0@) && bytes@ == enc_event_filter(r->Ok_0@),
            forall|v: EventFilterView| valid_event_filter(v) && bytes@ == #[trigger] enc_event_filter(v) ==> r is Ok && r->Ok_0@ == v,
            forall|v: EventFilterView|
                valid_event_filter(v) && #[trigger] cut_at(bytes@, 0, enc_event_filter(v)) ==> r == Err::<EventFilter, DecodeError>(
                    DecodeError::UnexpectedEof,
                ),
            forall|v: EventFilterView|
                valid_event_filter(v) && #[trigger] starts_at(bytes@, 0, enc_event_filter(v)) && enc_event_filter(v).len() < bytes@.len()
                    ==> r == Err::<EventFilter, DecodeError>(DecodeError::TrailingBytes),
            bytes@.len() > 0 && bytes@[0] > 1 ==> r == Err::<EventFilter, DecodeError>(
                DecodeError::UnknownVariant,
            ),
    {
        proof {
            assert forall|v: EventFilterView| bytes@ == #[trigger] enc_event_filter(v) implies starts_at(bytes@, 0, enc_event_filter(v)) by {
                lemma_whole(bytes@, enc_event_filter(v));
            }
        }
        match EventFilter::decode_from(bytes, 0) {
            Err(e) => Err(e),
            Ok((x, p)) => {
                if p != bytes.len() {
                    Err(DecodeError::TrailingBytes)
                } else {
                    proof {
                        lemma_whole(bytes@, enc_event_filter(x@));
                    }
                    Ok(x)
                }
            },
        }
    }
}

impl DataFilter {
    pub fn check_valid(&self)
        ensures
            valid_data_filter(self@),
    {
        if let DataFilter::AssetDefinition(id) = self {
            id.check_valid();
        }
    }
}

impl EventFilter {
    pub fn check_valid(&self)
        ensures
            valid_event_filter(self@),
    {
        if let EventFilter::Data(d) = self {
            d.check_valid();
        }
    }
}

impl Instruction {
    pub fn check_valid(&self)
        ensures
            valid_instruction(self@),
    {
        match self {
            Instruction::Mint { object, .. } => object.check_valid(),
            Instruction::Burn { object, .. } => object.check_valid(),
        }
    }
}

impl Executable {
    pub fn check_valid(&self)
        ensures
            valid_executable(self@),
    {
        let n = self.instructions.len();
        let mut i: usize = 0;
        while i < n
            invariant
                n == self.instructions@.len(),
                i <= n,
                forall|j: int| 0 <= j < i ==> valid_instruction(#[trigger] self@[j]),
            decreases n - i,
        {
            self.instructions[i].check_valid();
            i = i + 1;
        }
    }
}

impl Action {
    pub fn check_valid(&self)
        ensures
            valid_action(self@),
    {
        self.executable.check_valid();
        self.authority.check_valid();
        self.filter.check_valid();
    }
}

impl Trigger {
    /// Every trigger that can be built is valid, so its encoding decodes back to it.
    pub fn check_valid(&self)
        ensures
            valid_trigger(self@),
    {
        self.id.name.check_valid();
        self.action.check_valid();
    }
}

} // verus!

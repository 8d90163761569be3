//! Sample triggers that mint one unit of an asset for its owner.
use vstd::prelude::*;
use crate::ids::{AssetId, TriggerId};
use crate::model::{
    AssetIdView,
    Action, ActionView, DataFilter, DataFilterView, EventFilter, EventFilterView, Executable,
    Instruction, InstructionView, Repeats, TimeSchedule, Trigger, TriggerView,
};

verus! {

/// The first firing of the time-based sample, in milliseconds.
pub const SAMPLE_START_MS: u64 = 4141203402341234000;

/// The period of the time-based sample, in milliseconds.
pub const SAMPLE_PERIOD_MS: u64 = 3000;

/// The action of both samples, with the given filter.
pub open spec fn mint_one_action(asset: AssetIdView, filter: EventFilterView) -> ActionView {
    ActionView {
        executable: seq![InstructionView::Mint(asset, 1)],
        repeats: Repeats::Indefinitely,
        authority: asset.1,
        filter,
    }
}


fn mint_one(asset: AssetId, filter: EventFilter) -> (r: Action)
    ensures
        r@ == mint_one_action(asset@, filter@),
{
    let authority = asset.account.clone();
    let ghost a = asset@;
    let mut instructions: Vec<Instruction> = Vec::new();
    instructions.push(Instruction::Mint { object: asset, quantity: 1 });
    let executable = Executable::new(instructions);
    assert(executable@ =~= seq![InstructionView::Mint(a, 1)]);
    Action::new(executable, Repeats::Indefinitely, authority, filter)
}

/// A trigger that mints one unit of `asset` for its owner, every
/// `SAMPLE_PERIOD_MS` from `SAMPLE_START_MS` on.
pub fn create_some_time_based_trigger_isi(id: TriggerId, asset: AssetId) -> (r: Trigger)
    ensures
        r@ == (TriggerView {
            id: id@,
            action: mint_one_action(
                asset@,
                EventFilterView::Time(
                    TimeSchedule { start_ms: SAMPLE_START_MS, period_ms: Some(SAMPLE_PERIOD_MS) },
                ),
            ),
        }),
{
    let schedule = TimeSchedule::starting_at(SAMPLE_START_MS).with_period(SAMPLE_PERIOD_MS);
    Trigger::new(id, mint_one(asset, EventFilter::Time(schedule)))
}

/// A trigger that mints one unit of `asset` for its owner whenever an asset
/// definition is created.
pub fn create_some_event_based_trigger_isi(id: TriggerId, asset: AssetId) -> (r: Trigger)
    ensures
        r@ == (TriggerView {
            id: id@,
            action: mint_one_action(
                asset@,
                EventFilterView::Data(DataFilterView::AssetDefinitionCreated),
            ),
        }),
{
    Trigger::new(id, mint_one(asset, EventFilter::Data(DataFilter::AssetDefinitionCreated)))
}

} // verus!

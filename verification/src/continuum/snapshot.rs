//! How zones are saved and restored.

use std::collections::HashMap;
use std::sync::Arc;

use vstd::prelude::*;

use super::container::ZoneContainers;
use super::item_props::ZoneItemProps;
use super::traits::EntityStore;
use super::zone::Zone;
use crate::vessel::entity::Entity;
use crate::vessel::static_data::StaticDataProvider;

verus! {

/// A form in which a zone is saved. Map data is not part of it, nor is what follows
/// from the entities: a restored zone has it from bringing them in again.
pub trait ZoneSnapshot<
    E: Entity,
    S: EntityStore<E>,
    D: StaticDataProvider,
    C: ZoneContainers,
    P: ZoneItemProps,
> {
    type SaveData;

    type Error;

    /// Whether the saved form is that of a zone.
    spec fn saves(zone: Zone<E, S, D, C, P>, data: Self::SaveData) -> bool;

    /// Whether the saved form can be restored.
    spec fn restorable(data: Self::SaveData) -> bool;

    /// The saved form of a zone.
    fn save(zone: &Zone<E, S, D, C, P>) -> (data: Self::SaveData)
        requires
            zone.wf(),
        ensures
            Self::saves(*zone, data),
    ;

    /// A zone out of its saved form, on the given map data.
    fn restore(data: Self::SaveData, static_data: Option<Arc<D>>) -> (r: Result<
        Zone<E, S, D, C, P>,
        Self::Error,
    >)
        requires
            static_data matches Some(d) ==> d.wf(),
        ensures
            r is Ok <==> Self::restorable(data),
            r matches Ok(z) ==> z.wf() && z.static_data == static_data && Self::saves(z, data),
    ;
}

/// A form in which all zones are saved.
pub trait WorldSnapshot<
    E: Entity,
    S: EntityStore<E>,
    D: StaticDataProvider,
    C: ZoneContainers,
    P: ZoneItemProps,
> {
    type SaveData;

    type Error;

    /// Whether the saved form is that of these zones.
    spec fn saves(zones: Map<u8, Zone<E, S, D, C, P>>, data: Self::SaveData) -> bool;

    /// Whether the saved form can be restored.
    spec fn restorable(data: Self::SaveData) -> bool;

    /// The saved form of all zones.
    fn save(zones: &HashMap<u8, Zone<E, S, D, C, P>>) -> (data: Self::SaveData)
        requires
            forall|m: u8| #[trigger] zones@.contains_key(m) ==> zones@[m].wf(),
        ensures
            Self::saves(zones@, data),
    ;

    /// All zones out of their saved form, on the given map data.
    fn restore(data: Self::SaveData, static_data: Option<Arc<D>>) -> (r: Result<
        HashMap<u8, Zone<E, S, D, C, P>>,
        Self::Error,
    >)
        requires
            static_data matches Some(d) ==> d.wf(),
        ensures
            r is Ok <==> Self::restorable(data),
            r matches Ok(zones) ==> {
                &&& Self::saves(zones@, data)
                &&& forall|m: u8| #[trigger]
                    zones@.contains_key(m) ==> zones@[m].wf() && zones@[m].static_data
                        == static_data
            },
    ;
}

} // verus!

use dynec::comp::discrim::{DiscrimSet, Mapped};
use dynec::comp::{ComponentMap, Discrim, Isotope, Presence, Simple};
use dynec::entity::generation::{Store, StoreMap, WeakStore};
use dynec::entity::raw::Atomic;
use dynec::entity::rctrack;
use dynec::entity::referrer::{AsObject, SearchSingleStrong, VisitMutArg, VisitTypeArg};
use dynec::entity::{Entity, Generation, Permutation, Raw, Ref, Referrer, TempRef, TempRefChunk, Weak};
use dynec::Archetype;
use std::marker::PhantomData;
use std::ops::ControlFlow;

struct Arch1;

impl Archetype for Arch1 {
    const KEY: u64 = 1;
}

struct Arch2;

impl Archetype for Arch2 {
    const KEY: u64 = 2;
}

#[test]
fn generation_store_reads_back_bumps() {
    let mut store = Store::new();
    assert_eq!(store.get(3), Generation(0));
    assert_eq!(store.next(3), Generation(1));
    assert_eq!(store.next(3), Generation(2));
    assert_eq!(store.get(3), Generation(2));
    assert_eq!(store.get(2), Generation(0));
    assert_eq!(store.get(100), Generation(0));
}

#[test]
fn generation_store_map_separates_archetypes() {
    let mut map = StoreMap::new();
    assert_eq!(map.next::<Arch1>(5), Generation(1));
    assert_eq!(map.get::<Arch1>(5), Generation(1));
    assert_eq!(map.get::<Arch2>(5), Generation(0));
    assert!(map.resolve::<Arch2>().is_none());
    assert!(map.resolve::<Arch1>().is_some());
}

#[test]
fn weak_reference_records_generation() {
    let mut store = Store::new();
    store.next(4);
    store.next(4);
    let entity = Entity::<Arch1>::new_allocated(4);
    let weak: Weak<Arch1> = entity.weak(&store);
    assert_eq!(weak.id(), 4);
    assert_eq!(weak.generation(), Generation(2));
}

#[test]
fn temp_ref_chunk_lists_its_ids() {
    let chunk = TempRefChunk::<Arch1> { start: 3, end: 6, _ph: PhantomData };
    assert_eq!(chunk.iter().iter().map(|r| r.id()).collect::<Vec<_>>(), vec![3, 4, 5]);
    let single = TempRefChunk::<Arch1> { start: 7, end: 7, _ph: PhantomData };
    assert!(single.iter().is_empty());
}

#[test]
fn permutation_from_mapper_sorts_by_key() {
    let permutation = Permutation::from_mapper(vec![2, 4, 6], |id| 10 - id);
    assert_eq!(permutation.get(6), 1);
    assert_eq!(permutation.get(4), 2);
    assert_eq!(permutation.get(2), 3);
    let mut raw = 4;
    permutation.update(&mut raw);
    assert_eq!(raw, 2);
}

#[test]
fn permutation_moves_only_its_archetype() {
    let permutation = Permutation::from_comparator(vec![1, 2], |a, b| b.cmp(&a));
    let mut strong = vec![Entity::<Arch1>::new_allocated(1), Entity::<Arch1>::new_allocated(2)];
    permutation.update_referrer(Arch1::KEY, &mut strong);
    assert_eq!(strong.iter().map(|e| e.id()).collect::<Vec<_>>(), vec![2, 1]);

    let mut other = Some(Entity::<Arch2>::new_allocated(7));
    permutation.update_referrer(Arch1::KEY, &mut other);
    assert_eq!(other.map(|e| e.id()), Some(7));

    let store = Store::new();
    let mut weak = Box::new(Entity::<Arch1>::new_allocated(2).weak(&store));
    permutation.update_referrer(Arch1::KEY, &mut weak);
    assert_eq!(weak.id(), 1);

    let mut array = [Entity::<Arch1>::new_allocated(1)];
    permutation.update_referrer(Arch1::KEY, &mut array);
    assert_eq!(array[0].id(), 2);
}

#[test]
fn search_finds_owners_once_per_run() {
    let mut search = SearchSingleStrong::new(Arch1::KEY, 3);
    let mut first = vec![Entity::<Arch1>::new_allocated(3), Entity::<Arch1>::new_allocated(3)];
    let mut second = Some(Entity::<Arch1>::new_allocated(4));
    let mut third = Entity::<Arch1>::new_allocated(3);
    let mut other_arch = Entity::<Arch2>::new_allocated(3);

    search._set_debug_name(String::from("first"));
    first.visit_mut(&mut search);
    search._set_debug_name(String::from("second"));
    second.visit_mut(&mut search);
    other_arch.visit_mut(&mut search);
    search._set_debug_name(String::from("third"));
    third.visit_mut(&mut search);

    assert_eq!(search.found(), &vec![String::from("first"), String::from("third")]);
    assert_eq!(first[0].id(), 3);
}

#[test]
fn mark_breaks_on_second_visit() {
    let mut arg = VisitTypeArg::new();
    assert_eq!(arg.mark::<u32>(), ControlFlow::Continue(()));
    assert_eq!(arg.mark::<u64>(), ControlFlow::Continue(()));
    assert_eq!(arg.mark::<u32>(), ControlFlow::Break(()));
    Vec::<Entity<Arch1>>::visit_type(&mut arg);
    Vec::<Entity<Arch1>>::visit_type(&mut arg);
    assert_eq!(arg.mark::<Vec<Entity<Arch1>>>(), ControlFlow::Break(()));
    Option::<Weak<Arch2>>::visit_type(&mut arg);
    let mut found: Vec<u64> = arg.found_archetypes().iter().copied().collect();
    found.sort();
    assert_eq!(found, vec![Arch1::KEY, Arch2::KEY]);
}

#[test]
fn as_object_wraps_a_referrer() {
    let mut entity = Entity::<Arch1>::new_allocated(1);
    let _object = AsObject::of(&mut entity);
}

#[test]
fn rctrack_store_tracks_strong_references() {
    let mut store = rctrack::Store::new();
    assert!(store.get(2).is_none());
    store.set(2, dynec::entity::MaybeArc);
    assert!(store.get(2).is_some());
    assert!(store.get(1).is_none());
    store.remove(2);
    assert!(store.get(2).is_none());
}

#[test]
fn rctrack_map_converts_tracked_reference() {
    let mut map = rctrack::StoreMap::new();
    map.set::<Arch1>(6, dynec::entity::MaybeArc);
    let strong = map.to_strong(TempRef::<Arch1>::new(6));
    assert_eq!(strong.id(), 6);
    map.remove::<Arch1>(6);
}

#[test]
fn untracked_map_converts_any_reference() {
    let map = rctrack::MaybeStoreMap::default();
    let strong = map.to_strong(TempRef::<Arch1>::new(9));
    assert_eq!(strong.id(), 9);
}

#[test]
fn raw_arithmetic() {
    assert_eq!(Raw::add(5u32, 3), 8);
    assert_eq!(Raw::sub(9u32, 4), 5);
    assert_eq!(Raw::approx_midpoint(3u32, 8), 5);
    assert_eq!(<u32 as Raw>::first(), 1);
    assert!(Raw::less_than(2u16, 3));
    assert_eq!(<u64 as Raw>::range(3, 6), vec![3, 4, 5]);
    assert_eq!(<u16 as Raw>::from_primitive(7).to_primitive(), 7);
}

#[test]
fn atomic_ids_count_up() {
    let mut gauge = <u32 as Raw>::new();
    assert_eq!(Atomic::load_mut(&mut gauge), 1);
    assert_eq!(Atomic::fetch_add(&gauge, 3), 1);
    assert_eq!(Atomic::load(&gauge), 4);
    let mut wide = <u64 as Raw>::new();
    assert_eq!(Atomic::fetch_add(&wide, 1), 1);
    assert_eq!(Atomic::load_mut(&mut wide), 2);
    let mut narrow = <u16 as Raw>::new();
    assert_eq!(Atomic::load_mut(&mut narrow), 1);
}

#[test]
fn usize_discriminants_round_trip() {
    assert_eq!(<usize as Discrim>::from_usize(7).into_usize(), 7);
}

#[test]
fn discriminant_sets_map_in_order() {
    let set = vec![3usize, 1];
    assert_eq!(set.iter(), vec![3, 1]);
    assert_eq!(DiscrimSet::map(&set, |d| d * 10), vec![(3, 30), (1, 10)]);
    let array = [2usize, 5];
    assert_eq!(DiscrimSet::map(&array, |d| d + 1), vec![(2, 3), (5, 6)]);
}

#[test]
fn mapped_vectors_index_by_position() {
    let mut mapped = vec![(4usize, "a"), (9usize, "b")];
    assert_eq!(mapped.get_by(&1), Some(&"b"));
    assert_eq!(mapped.get_by(&2), None);
    *mapped.get_mut_by(&0).expect("in range") = "c";
    assert_eq!(Mapped::iter(&mapped), vec![(4, &"c"), (9, &"b")]);
    let mut array = [(1usize, 10), (2usize, 20)];
    *array.get_mut_by(&1).expect("in range") += 1;
    assert_eq!(array.get_by(&1), Some(&21));
    assert!(array.get_mut_by(&5).is_none());
}

struct Tag(u8);

impl Referrer for Tag {
    fn visit_type(arg: &mut VisitTypeArg) {
        let _ = arg.mark::<Self>();
    }

    fn visit_mut<V: VisitMutArg>(&mut self, _: &mut V) {}
}

impl Simple<Arch1> for Tag {
    const KEY: u64 = 1;
    const PRESENCE: Presence = Presence::Required;
}

struct Layer(u8);

impl Referrer for Layer {
    fn visit_type(arg: &mut VisitTypeArg) {
        let _ = arg.mark::<Self>();
    }

    fn visit_mut<V: VisitMutArg>(&mut self, _: &mut V) {}
}

impl Isotope<Arch1> for Layer {
    type Discrim = usize;

    const KEY: u64 = 2;
}

#[test]
fn component_map_counts_types() {
    let mut map = ComponentMap::<Arch1>::new();
    assert_eq!(map.simple_len(), 0);
    assert!(map.get_simple::<Tag>().is_none());
    map.insert_simple(Tag(3));
    assert_eq!(map.get_simple::<Tag>().map(|t| t.0), Some(3));
    map.insert_isotope::<Layer>(0, Layer(1));
    map.insert_isotope::<Layer>(4, Layer(2));
    assert_eq!(map.simple_len(), 1);
    assert_eq!(map.isotope_type_count(), 1);
    assert!(!map.populate::<Layer2, Tag2, _>(&|_: &Layer2| Tag2));

    let layers = map.remove_isotope::<Layer>();
    assert_eq!(layers.into_iter().map(|(d, l)| (d, l.0)).collect::<Vec<_>>(), vec![(0, 1), (4, 2)]);
    assert_eq!(map.isotope_type_count(), 0);
    assert!(map.remove_isotope::<Layer>().is_empty());
    assert_eq!(map.remove_simple::<Tag>().map(|t| t.0), Some(3));
    assert!(map.remove_simple::<Tag>().is_none());
    assert_eq!(map.simple_len(), 0);
}

struct Layer2;

impl Referrer for Layer2 {
    fn visit_type(arg: &mut VisitTypeArg) {
        let _ = arg.mark::<Self>();
    }

    fn visit_mut<V: VisitMutArg>(&mut self, _: &mut V) {}
}

impl Simple<Arch1> for Layer2 {
    const KEY: u64 = 3;
    const PRESENCE: Presence = Presence::Optional;
}

struct Tag2;

impl Referrer for Tag2 {
    fn visit_type(arg: &mut VisitTypeArg) {
        let _ = arg.mark::<Self>();
    }

    fn visit_mut<V: VisitMutArg>(&mut self, _: &mut V) {}
}

impl Simple<Arch1> for Tag2 {
    const KEY: u64 = 4;
    const PRESENCE: Presence = Presence::Optional;
    const IS_FINALIZER: bool = true;
}

#[test]
fn permutation_updates_deque_in_place() {
    let permutation = Permutation::from_comparator(vec![1, 2, 3], |a, b| b.cmp(&a));
    let mut deque: std::collections::VecDeque<Entity<Arch1>> =
        [1, 2, 3].into_iter().map(Entity::<Arch1>::new_allocated).collect();
    permutation.update_referrer(Arch1::KEY, &mut deque);
    assert_eq!(deque.iter().map(|e| e.id()).collect::<Vec<_>>(), vec![3, 2, 1]);
}

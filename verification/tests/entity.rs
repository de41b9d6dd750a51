use std::collections::HashMap;

use dynec::entity::{Entity, Permutation, Ref, TempRef};
use dynec::Archetype;

struct TestArch;

impl Archetype for TestArch {
    const KEY: u64 = 1;
}

// ensure that Ref<Archetype = A> for a fixed `A` must be object-safe.
#[test]
fn test_object_safety() {
    let _: &dyn Ref<Archetype = TestArch> = &TempRef::new(1);
}

#[test]
fn test_from_comparator() {
    let mut weight: HashMap<u32, i32> = HashMap::new();
    weight.insert(1, 5);
    weight.insert(3, 3);
    weight.insert(5, 4);

    let permutation = Permutation::from_comparator(weight.keys().copied().collect(), |entity1, entity2| {
        let weight1 = weight.get(&entity1).expect("Undefined key given");
        let weight2 = weight.get(&entity2).expect("Undefined key given");
        weight1.cmp(weight2)
    });

    for (original, target) in [(1, 3), (3, 1), (5, 2)] {
        let mut entity = Entity::<TestArch>::new_allocated(original);
        permutation.update_referrer(TestArch::KEY, &mut entity);
        assert_eq!(entity.id(), target);
    }
}

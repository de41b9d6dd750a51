use dynec::comp::{ComponentMap, Presence, Simple};
use dynec::entity::referrer::{VisitMutArg, VisitTypeArg};
use dynec::entity::Referrer;
use dynec::Archetype;

struct TestArch;

impl Archetype for TestArch {
    const KEY: u64 = 1;
}

struct Comp1(i32);

impl Referrer for Comp1 {
    fn visit_type(arg: &mut VisitTypeArg) {
        let _ = arg.mark::<Self>();
    }

    fn visit_mut<V: VisitMutArg>(&mut self, _: &mut V) {}
}

impl Simple<TestArch> for Comp1 {
    const KEY: u64 = 1;
    const PRESENCE: Presence = Presence::Optional;
}

#[derive(Debug, PartialEq)]
struct Comp2(i32);

impl Referrer for Comp2 {
    fn visit_type(arg: &mut VisitTypeArg) {
        let _ = arg.mark::<Self>();
    }

    fn visit_mut<V: VisitMutArg>(&mut self, _: &mut V) {}
}

impl Simple<TestArch> for Comp2 {
    const KEY: u64 = 2;
    const PRESENCE: Presence = Presence::Optional;
}

#[test]
fn test_auto_init_fn() {
    let auto_fn = |comp1: &Comp1| Comp2(comp1.0 + 5);
    let mut map = ComponentMap::<TestArch>::default();
    map.insert_simple(Comp1(2));
    assert!(map.populate::<Comp1, Comp2, _>(&auto_fn));
    assert_eq!(map.get_simple::<Comp2>(), Some(&Comp2(7)));
}

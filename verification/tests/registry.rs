use thorn::event::LayerEvent;
use thorn::layer::{AnyLayer, Layer, LayerDispatch, LayerReg};

struct CountingSvc {
    tag: u64,
    ticks: u64,
}

impl LayerDispatch<LayerEvent> for CountingSvc {
    fn dispatch_ensures(&self, _event: LayerEvent, _post: Self) -> bool {
        true
    }

    fn dispatch(&mut self, event: &LayerEvent) {
        if let LayerEvent::Tick(_) = event {
            self.ticks += 1;
        }
    }
}

#[test]
fn layer_cell_round_trip() {
    let mut cell = Layer::new(41u64);
    assert_eq!(*cell.read(), 41);
    *cell.write() = 42;
    assert_eq!(cell.into_inner(), 42);
}

#[test]
fn any_layer_carries_identity() {
    let l = AnyLayer::new(7, CountingSvc { tag: 1, ticks: 0 });
    assert_eq!(l.id(), 7);
    assert_eq!(l.read().tag, 1);
}

#[test]
fn insert_and_get() {
    let mut reg: LayerReg<CountingSvc> = LayerReg::new();
    assert!(reg.insert(1, CountingSvc { tag: 10, ticks: 0 }).is_none());
    assert!(reg.insert(2, CountingSvc { tag: 20, ticks: 0 }).is_none());
    assert_eq!(reg.len(), 2);
    let got = reg.get(1).expect("identity 1 present");
    assert_eq!(got.read().tag, 10);
    assert!(reg.get(3).is_none());
}

#[test]
fn duplicate_insert_rejects_second_value() {
    // Inserting the same identity twice rejects the second value, and a
    // subsequent lookup reflects only the first.
    let mut reg: LayerReg<CountingSvc> = LayerReg::new();
    assert!(reg.insert(5, CountingSvc { tag: 1, ticks: 0 }).is_none());
    let rejected = reg.insert(5, CountingSvc { tag: 2, ticks: 0 });
    let rejected = rejected.expect("second insert must hand the value back");
    assert_eq!(rejected.tag, 2);
    assert_eq!(reg.len(), 1);
    assert_eq!(reg.get(5).unwrap().read().tag, 1);
}

#[test]
fn duplicate_insert_any_rejects_layer() {
    let mut reg: LayerReg<CountingSvc> = LayerReg::new();
    let first = AnyLayer::new(9, CountingSvc { tag: 1, ticks: 0 });
    assert!(reg.insert_any(first).is_none());
    let second = AnyLayer::new(9, CountingSvc { tag: 2, ticks: 0 });
    let back = reg.insert_any(second).expect("occupied identity");
    assert_eq!(back.id(), 9);
    assert_eq!(back.read().tag, 2);
}

#[test]
fn get_unchecked_finds_present_identity() {
    let mut reg: LayerReg<CountingSvc> = LayerReg::new();
    reg.insert(3, CountingSvc { tag: 30, ticks: 0 });
    assert_eq!(reg.get_unchecked(3).read().tag, 30);
}

#[test]
fn remove_takes_entry_out() {
    let mut reg: LayerReg<CountingSvc> = LayerReg::new();
    reg.insert(1, CountingSvc { tag: 10, ticks: 0 });
    reg.insert(2, CountingSvc { tag: 20, ticks: 0 });
    let taken = reg.remove(1).expect("identity 1 present");
    assert_eq!(taken.read().tag, 10);
    assert_eq!(reg.len(), 1);
    assert!(reg.get(1).is_none());
    assert!(reg.remove(1).is_none());
}

#[test]
fn get_mut_replaces_value_in_place() {
    let mut reg: LayerReg<CountingSvc> = LayerReg::new();
    reg.insert(1, CountingSvc { tag: 10, ticks: 0 });
    reg.get_mut(1).tag = 11;
    assert_eq!(reg.get(1).unwrap().read().tag, 11);
}

#[test]
fn dispatch_reaches_every_service() {
    let mut reg: LayerReg<CountingSvc> = LayerReg::new();
    reg.insert(1, CountingSvc { tag: 10, ticks: 0 });
    reg.insert(2, CountingSvc { tag: 20, ticks: 0 });
    reg.dispatch(&LayerEvent::Tick(16));
    reg.dispatch(&LayerEvent::Panic);
    reg.dispatch(&LayerEvent::Tick(16));
    assert_eq!(reg.get(1).unwrap().read().ticks, 2);
    assert_eq!(reg.get(2).unwrap().read().ticks, 2);
}

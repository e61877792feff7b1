use rostengan_my::burst::{BurstBuilder, Executor, MachineSpec};
use std::cell::Cell;
use std::rc::Rc;

fn counting(
    counter: &Rc<Cell<u32>>,
    step: u32,
) -> Box<dyn Fn(Executor) -> Result<(), std::io::Error>> {
    let counter = counter.clone();
    Box::new(move |_ex: Executor| {
        counter.set(counter.get() + step);
        Ok(())
    })
}

#[test]
fn an_empty_plan_has_no_server() {
    let plan: BurstBuilder<Box<dyn Fn(Executor) -> Result<(), std::io::Error>>> =
        BurstBuilder::default();
    assert!(!plan.has_server());
}

#[test]
fn run_starts_the_server_set() {
    let counter = Rc::new(Cell::new(0));
    let mut plan = BurstBuilder::default();
    plan.add_set(
        "client".to_string(),
        3,
        MachineSpec::new("t2.micro".to_string(), "ami".to_string(), counting(&counter, 100)),
    );
    assert!(!plan.has_server());
    plan.add_set(
        "server".to_string(),
        1,
        MachineSpec::new("t2.micro".to_string(), "ami".to_string(), counting(&counter, 1)),
    );
    assert!(plan.has_server());
    plan.run(Executor);
    assert_eq!(counter.get(), 1);
}

#[test]
fn a_set_added_again_replaces_the_first() {
    let counter = Rc::new(Cell::new(0));
    let mut plan = BurstBuilder::default();
    plan.add_set(
        "server".to_string(),
        1,
        MachineSpec::new("t2.micro".to_string(), "ami".to_string(), counting(&counter, 1)),
    );
    plan.add_set(
        "server".to_string(),
        2,
        MachineSpec::new("t2.large".to_string(), "ami".to_string(), counting(&counter, 10)),
    );
    plan.run(Executor);
    assert_eq!(counter.get(), 10);
}

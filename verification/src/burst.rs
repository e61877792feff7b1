//! A plan of machine sets to start, each with the routine that sets a
//! machine up.
use vstd::prelude::*;

verus! {

/// `std::io::Error`, the error a setup routine may return. Nothing is
/// claimed of it: a value of this type is only handed through.
#[verifier::external_type_specification]
#[verifier::external_body]
pub struct ExIoError(std::io::Error);

/// The handle through which a setup routine runs its commands.
pub struct Executor;

/// One kind of machine: its instance type, its image, and the routine that
/// sets it up.
pub struct MachineSpec<F> {
    instance_type: String,
    ami: String,
    init: F,
}

impl<F: Fn(Executor) -> Result<(), std::io::Error>> MachineSpec<F> {
    /// The instance type, as characters.
    pub closed spec fn instance_type(&self) -> Seq<char> {
        self.instance_type@
    }

    /// The image, as characters.
    pub closed spec fn ami(&self) -> Seq<char> {
        self.ami@
    }

    /// The setup routine.
    pub closed spec fn init(&self) -> F {
        self.init
    }

    /// A machine of the given instance type and image that `init` sets up.
    pub fn new(instance_type: String, ami: String, init: F) -> (spec: Self)
        ensures
            spec.instance_type() == instance_type@,
            spec.ami() == ami@,
            spec.init() == init,
    {
        MachineSpec { instance_type, ami, init }
    }
}

/// One named set of machines.
pub struct MachineSet<F> {
    name: String,
    count: u32,
    spec: MachineSpec<F>,
}

/// The mathematical value of a [`MachineSet`].
pub ghost struct MachineSetView<F> {
    pub name: Seq<char>,
    pub count: u32,
    pub spec: MachineSpec<F>,
}

/// Whether set `i` of `sets` has the name `name`.
pub open spec fn is_named<F>(sets: Seq<MachineSetView<F>>, name: Seq<char>, i: int) -> bool {
    0 <= i < sets.len() && sets[i].name == name
}

/// No two sets have the same name.
pub open spec fn distinct_names<F>(sets: Seq<MachineSetView<F>>) -> bool {
    forall|i: int, j: int| 0 <= i < j < sets.len() ==> sets[i].name != sets[j].name
}

/// Where the set of the name `name` stands, if the plan has one.
pub open spec fn position_named<F>(sets: Seq<MachineSetView<F>>, name: Seq<char>) -> Option<int> {
    if exists|i: int| is_named(sets, name, i) {
        Some(choose|i: int| is_named(sets, name, i))
    } else {
        None
    }
}

/// The set of the name `name`, if the plan has one.
pub open spec fn set_named<F>(sets: Seq<MachineSetView<F>>, name: Seq<char>) -> Option<
    MachineSetView<F>,
> {
    match position_named(sets, name) {
        Some(i) => Some(sets[i]),
        None => None,
    }
}

/// `sets` with `set` added: it takes the place of the set of its name, if
/// there was one, and else comes last.
pub open spec fn with_set<F>(sets: Seq<MachineSetView<F>>, set: MachineSetView<F>) -> Seq<
    MachineSetView<F>,
> {
    match position_named(sets, set.name) {
        Some(i) => sets.update(i, set),
        None => sets.push(set),
    }
}

/// Among sets of distinct names, the set of a name stands where one finds
/// it.
pub proof fn lemma_named_found<F>(sets: Seq<MachineSetView<F>>, name: Seq<char>, i: int)
    requires
        distinct_names(sets),
        is_named(sets, name, i),
    ensures
        position_named(sets, name) == Some(i),
{
    let chosen = choose|k: int| is_named(sets, name, k);
    if chosen < i {
        assert(sets[chosen].name != sets[i].name);
    } else if i < chosen {
        assert(sets[i].name != sets[chosen].name);
    }
}

/// The name of the set whose setup routine `run` starts.
pub open spec fn server_name() -> Seq<char> {
    "server"@
}

/// A plan: named sets of machines, no name twice.
pub struct BurstBuilder<F> {
    sets: Vec<MachineSet<F>>,
}

impl<F: Fn(Executor) -> Result<(), std::io::Error>> View for BurstBuilder<F> {
    type V = Seq<MachineSetView<F>>;

    closed spec fn view(&self) -> Seq<MachineSetView<F>> {
        Seq::new(
            self.sets.len() as nat,
            |i: int|
                MachineSetView {
                    name: self.sets[i].name@,
                    count: self.sets[i].count,
                    spec: self.sets[i].spec,
                },
        )
    }
}

impl<F: Fn(Executor) -> Result<(), std::io::Error>> Default for BurstBuilder<F> {
    /// The empty plan.
    fn default() -> (builder: Self)
        ensures
            builder.wf(),
            builder@ == Seq::<MachineSetView<F>>::empty(),
    {
        let builder = BurstBuilder { sets: Vec::new() };
        assert(builder@ =~= Seq::<MachineSetView<F>>::empty());
        builder
    }
}

impl<F: Fn(Executor) -> Result<(), std::io::Error>> BurstBuilder<F> {
    /// No two sets of the plan have the same name.
    pub open spec fn wf(&self) -> bool {
        distinct_names(self@)
    }

    /// Where the set of the name `name` stands, if the plan has one.
    fn find(&self, name: &String) -> (at: Option<usize>)
        requires
            self.wf(),
        ensures
            match at {
                Some(i) => i < self@.len() && position_named(self@, name@) == Some(i as int),
                None => position_named(self@, name@) is None,
            },
    {
        let mut i: usize = 0;
        while i < self.sets.len()
            invariant
                self.wf(),
                i <= self.sets.len(),
                forall|k: int| 0 <= k < i ==> !is_named(self@, name@, k),
            decreases self.sets.len() - i,
        {
            if self.sets[i].name == *name {
                proof {
                    assert(is_named(self@, name@, i as int));
                    lemma_named_found(self@, name@, i as int);
                }
                return Some(i);
            }
            i += 1;
        }
        None
    }

    /// Adds the set `name` of `count` machines of the kind `spec` to the
    /// plan. A set of that name that the plan already had is replaced.
    pub fn add_set(&mut self, name: String, count: u32, spec: MachineSpec<F>)
        requires
            old(self).wf(),
        ensures
            final(self).wf(),
            final(self)@ == with_set(old(self)@, MachineSetView { name: name@, count, spec }),
            set_named(final(self)@, name@) == Some(MachineSetView { name: name@, count, spec }),
    {
        let ghost added = MachineSetView { name: name@, count, spec };
        match self.find(&name) {
            Some(i) => {
                self.sets[i] = MachineSet { name, count, spec };
                assert(self@ =~= with_set(old(self)@, added));
                assert forall|a: int, b: int| 0 <= a < b < self@.len() implies self@[a].name
                    != self@[b].name by {
                    assert(old(self)@[a].name != old(self)@[b].name);
                }
                proof {
                    assert(is_named(self@, added.name, i as int));
                    lemma_named_found(self@, added.name, i as int);
                }
            },
            None => {
                let ghost last = self@.len() as int;
                self.sets.push(MachineSet { name, count, spec });
                assert(self@ =~= with_set(old(self)@, added));
                assert forall|a: int, b: int| 0 <= a < b < self@.len() implies self@[a].name
                    != self@[b].name by {
                    if b == last {
                        assert(!is_named(old(self)@, added.name, a));
                    } else {
                        assert(old(self)@[a].name != old(self)@[b].name);
                    }
                }
                proof {
                    assert(is_named(self@, added.name, last));
                    lemma_named_found(self@, added.name, last);
                }
            },
        }
    }

    /// Whether the plan has a set of the name "server".
    pub fn has_server(&self) -> (found: bool)
        requires
            self.wf(),
        ensures
            found == set_named(self@, server_name()).is_some(),
    {
        let wanted = "server".to_owned();
        self.find(&wanted).is_some()
    }

    /// Runs the setup routine of the set "server" with `ex`. What the routine
    /// returns is dropped.
    pub fn run(&self, ex: Executor)
        requires
            self.wf(),
            set_named(self@, server_name()) is Some,
            call_requires(set_named(self@, server_name())->Some_0.spec.init(), (ex,)),
    {
        let wanted = "server".to_owned();
        match self.find(&wanted) {
            Some(i) => {
                let _ = (self.sets[i].spec.init)(ex);
            },
            None => {},
        }
    }
}

} // verus!

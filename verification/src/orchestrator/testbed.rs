//! The machines of a testbed: which ones there are, and which ones are started
//! and stopped.
use crate::decimal;
use crate::decimal::push_decimal;
use crate::orchestrator::settings::{Instance, Settings};
use crate::text::{same_text, text};
use vstd::prelude::*;

verus! {

/// A testbed on a cloud provider.
pub struct Testbed {
    /// The name of the user on the machines.
    pub username: String,
    pub settings: Settings,
    /// The machines, as the provider has listed them.
    pub instances: Vec<Instance>,
}

/// A text in upper case.
pub uninterp spec fn uppercased(s: Seq<char>) -> Seq<char>;

/// `str::to_uppercase`: the text determines the result.
#[verifier::external_body]
fn uppercase(s: &str) -> (r: String)
    ensures
        r@ == uppercased(s@),
{
    s.to_uppercase()
}

/// A line of the status of a testbed.
#[derive(Debug)]
pub enum StatusRow {
    /// The name of a region, in upper case.
    Region(String),
    Blank,
    /// A machine: its number in the region, whether it is active, how to connect to
    /// it, and its address.
    Machine { number: u64, active: bool, connect: String, address: String },
}

/// A line of the status of a testbed, by its contents.
pub enum RowView {
    Region(Seq<char>),
    Blank,
    Machine { number: nat, active: bool, connect: Seq<char>, address: Seq<char> },
}

impl View for StatusRow {
    type V = RowView;

    open spec fn view(&self) -> RowView {
        match *self {
            StatusRow::Region(name) => RowView::Region(name@),
            StatusRow::Blank => RowView::Blank,
            StatusRow::Machine { number, active, connect, address } => RowView::Machine {
                number: number as nat,
                active,
                connect: connect@,
                address: address@,
            },
        }
    }
}

/// Lines, by their contents.
pub open spec fn row_views(rows: Seq<StatusRow>) -> Seq<RowView> {
    Seq::new(rows.len(), |i: int| rows[i]@)
}

/// The status of a testbed: how many of its machines are active, and its lines.
#[derive(Debug)]
pub struct Status {
    pub active: u64,
    pub rows: Vec<StatusRow>,
}

/// The command that connects to a machine.
pub open spec fn connect_command(
    key_file: Seq<char>,
    username: Seq<char>,
    host: Seq<char>,
    port: nat,
) -> Seq<char> {
    "ssh -i "@ + key_file + " "@ + username + "@"@ + host + " -p "@ + decimal::decimal(port)
}

/// The lines of the first `k` machines as far as they are in a region and
/// described by the settings, and how many machines the lines show. A blank line
/// comes before every fifth one; machines that are gone are not shown.
pub open spec fn machine_rows(t: Testbed, region: Seq<char>, k: int) -> (Seq<RowView>, nat)
    decreases k,
{
    if k <= 0 {
        (Seq::empty(), 0)
    } else {
        let (rows, number) = machine_rows(t, region, k - 1);
        let x = t.instances@[k - 1];
        if !t.settings.matches_settings(x) || x.region@ != region {
            (rows, number)
        } else {
            let rows = if number % 5 == 0 {
                rows.push(RowView::Blank)
            } else {
                rows
            };
            if x.status is Terminated {
                (rows, number)
            } else {
                let row = RowView::Machine {
                    number,
                    active: x.status is Active,
                    connect: connect_command(
                        t.settings.ssh_private_key_file@,
                        t.username@,
                        x.ssh_host@,
                        x.ssh_port as nat,
                    ),
                    address: x.main_ip.dotted(),
                };
                (rows.push(row), number + 1)
            }
        }
    }
}

/// The lines of the first `m` regions, with a blank line between regions.
pub open spec fn region_rows(t: Testbed, m: int) -> Seq<RowView>
    decreases m,
{
    if m <= 0 {
        Seq::empty()
    } else {
        let name = t.settings.regions@[m - 1].name@;
        let rows = region_rows(t, m - 1).push(RowView::Region(uppercased(name))) + machine_rows(
            t,
            name,
            t.instances@.len() as int,
        ).0;
        if m < t.settings.regions@.len() {
            rows.push(RowView::Blank)
        } else {
            rows
        }
    }
}

/// How many of the first `k` machines are active and described by the settings.
pub open spec fn active_count(t: Testbed, k: int) -> nat
    decreases k,
{
    if k <= 0 {
        0
    } else {
        let rest = active_count(t, k - 1);
        if t.settings.matches_settings(t.instances@[k - 1]) && t.instances@[k - 1].status is Active {
            rest + 1
        } else {
            rest
        }
    }
}

/// The positions of the machines that the settings describe, up to `k`.
pub open spec fn described(settings: Settings, instances: Seq<Instance>, k: int) -> Seq<usize>
    decreases k,
{
    if k <= 0 {
        Seq::empty()
    } else {
        let rest = described(settings, instances, k - 1);
        if settings.matches_settings(instances[k - 1]) {
            rest.push((k - 1) as usize)
        } else {
            rest
        }
    }
}

/// A machine may be started in a region: it is inactive and the settings
/// describe it.
pub open spec fn startable(settings: Settings, instance: Instance, region: Seq<char>) -> bool {
    instance.status is Inactive && instance.region@ == region && settings.matches_settings(instance)
}

/// The positions of the first `quantity` machines, up to `k`, that may be
/// started in a region.
pub open spec fn available_in(
    settings: Settings,
    instances: Seq<Instance>,
    region: Seq<char>,
    quantity: nat,
    k: int,
) -> Seq<usize>
    decreases k,
{
    if k <= 0 {
        Seq::empty()
    } else {
        let rest = available_in(settings, instances, region, quantity, k - 1);
        if rest.len() < quantity && startable(settings, instances[k - 1], region) {
            rest.push((k - 1) as usize)
        } else {
            rest
        }
    }
}

/// The positions of the machines to start in the first `m` regions.
pub open spec fn available(
    settings: Settings,
    instances: Seq<Instance>,
    quantity: nat,
    m: int,
) -> Seq<usize>
    decreases m,
{
    if m <= 0 {
        Seq::empty()
    } else {
        available(settings, instances, quantity, m - 1) + available_in(
            settings,
            instances,
            settings.regions@[m - 1].name@,
            quantity,
            instances.len() as int,
        )
    }
}

/// How many machines the first `m` regions lack of `quantity` each.
pub open spec fn missing(
    settings: Settings,
    instances: Seq<Instance>,
    quantity: nat,
    m: int,
) -> int
    decreases m,
{
    if m <= 0 {
        0
    } else {
        missing(settings, instances, quantity, m - 1) + quantity - available_in(
            settings,
            instances,
            settings.regions@[m - 1].name@,
            quantity,
            instances.len() as int,
        ).len()
    }
}

/// What went wrong with a testbed.
#[derive(Clone, Copy, Debug, PartialEq, Eq, Structural)]
pub enum TestbedError {
    /// So many machines are missing.
    InsufficientCapacity(u128),
}

impl Testbed {
    /// The name of the user on the machines.
    pub fn username(&self) -> (r: &str)
        ensures
            r@ == self.username@,
    {
        self.username.as_str()
    }

    /// The positions of the machines that the settings describe.
    pub fn instances(&self) -> (r: Vec<usize>)
        ensures
            r@ == described(self.settings, self.instances@, self.instances@.len() as int),
    {
        let mut out: Vec<usize> = Vec::new();
        let mut i: usize = 0;
        while i < self.instances.len()
            invariant
                i <= self.instances@.len(),
                out@ == described(self.settings, self.instances@, i as int),
            decreases self.instances@.len() - i,
        {
            if self.settings.filter_instances(&self.instances[i]) {
                out.push(i);
            }
            i = i + 1;
        }
        out
    }

    fn connect(&self, x: &Instance) -> (r: String)
        ensures
            r@ == connect_command(
                self.settings.ssh_private_key_file@,
                self.username@,
                x.ssh_host@,
                x.ssh_port as nat,
            ),
    {
        let mut s = text("ssh -i ");
        s.append(self.settings.ssh_private_key_file.as_str());
        s.append(" ");
        s.append(self.username.as_str());
        s.append("@");
        s.append(x.ssh_host.as_str());
        s.append(" -p ");
        push_decimal(&mut s, x.ssh_port as u64);
        s
    }

    fn push_machines(&self, region: &str, rows: &mut Vec<StatusRow>)
        requires
            self.instances@.len() <= u64::MAX,
        ensures
            row_views(final(rows)@) == row_views(old(rows)@) + machine_rows(
                *self,
                region@,
                self.instances@.len() as int,
            ).0,
    {
        let ghost before = row_views(rows@);
        let mut number: u64 = 0;
        let mut i: usize = 0;
        assert(row_views(rows@) =~= before + machine_rows(*self, region@, 0).0);
        while i < self.instances.len()
            invariant
                i <= self.instances@.len() <= u64::MAX,
                number <= i,
                number == machine_rows(*self, region@, i as int).1,
                row_views(rows@) == before + machine_rows(*self, region@, i as int).0,
            decreases self.instances@.len() - i,
        {
            let x = &self.instances[i];
            if self.settings.filter_instances(x) && same_text(x.region.as_str(), region) {
                let ghost r0 = rows@;
                if number % 5 == 0 {
                    rows.push(StatusRow::Blank);
                    assert(row_views(rows@) =~= row_views(r0).push(RowView::Blank));
                }
                if !x.is_terminated() {
                    let ghost r1 = rows@;
                    rows.push(
                        StatusRow::Machine {
                            number,
                            active: x.is_active(),
                            connect: self.connect(x),
                            address: x.main_ip.to_text(),
                        },
                    );
                    assert(row_views(rows@) =~= row_views(r1).push(rows@.last()@));
                    number = number + 1;
                }
                assert(row_views(rows@) =~= before + machine_rows(*self, region@, i + 1).0);
            }
            i = i + 1;
        }
    }

    /// The status of the testbed, region by region.
    pub fn status(&self) -> (r: Status)
        requires
            self.instances@.len() <= u64::MAX,
        ensures
            r.active == active_count(*self, self.instances@.len() as int),
            row_views(r.rows@) == region_rows(*self, self.settings.regions@.len() as int),
    {
        let mut active: u64 = 0;
        let mut i: usize = 0;
        while i < self.instances.len()
            invariant
                i <= self.instances@.len() <= u64::MAX,
                active <= i,
                active == active_count(*self, i as int),
            decreases self.instances@.len() - i,
        {
            if self.settings.filter_instances(&self.instances[i]) && self.instances[i].is_active() {
                active = active + 1;
            }
            i = i + 1;
        }
        let mut rows: Vec<StatusRow> = Vec::new();
        let mut m: usize = 0;
        assert(row_views(rows@) =~= region_rows(*self, 0));
        while m < self.settings.regions.len()
            invariant
                m <= self.settings.regions@.len(),
                self.instances@.len() <= u64::MAX,
                row_views(rows@) == region_rows(*self, m as int),
            decreases self.settings.regions@.len() - m,
        {
            let region = self.settings.regions[m].name.as_str();
            let ghost r0 = rows@;
            rows.push(StatusRow::Region(uppercase(region)));
            assert(row_views(rows@) =~= row_views(r0).push(rows@.last()@));
            self.push_machines(region, &mut rows);
            if m + 1 < self.settings.regions.len() {
                let ghost r1 = rows@;
                rows.push(StatusRow::Blank);
                assert(row_views(rows@) =~= row_views(r1).push(RowView::Blank));
            }
            m = m + 1;
        }
        Status { active, rows }
    }

    /// The regions to create machines in, one entry for each machine: the given
    /// region, or every region of the settings in turn.
    pub fn deploy_plan(&self, quantity: usize, region: Option<&str>) -> (r: Vec<String>)
        ensures
            match region {
                Some(x) => r@.len() == quantity && forall|i: int|
                    0 <= i < r@.len() ==> (#[trigger] r@[i])@ == x@,
                None => r@.len() == quantity * self.settings.regions@.len() && forall|i: int|
                    0 <= i < r@.len() ==> quantity > 0 && (#[trigger] r@[i])@
                        == self.settings.regions@[i / (quantity as int)].name@,
            },
    {
        let mut out: Vec<String> = Vec::new();
        match region {
            Some(x) => {
                let mut i: usize = 0;
                while i < quantity
                    invariant
                        i <= quantity,
                        out@.len() == i,
                        forall|k: int| 0 <= k < out@.len() ==> (#[trigger] out@[k])@ == x@,
                    decreases quantity - i,
                {
                    out.push(text(x));
                    i = i + 1;
                }
            },
            None => {
                let mut m: usize = 0;
                assert(quantity * 0 == 0) by (nonlinear_arith);
                while m < self.settings.regions.len()
                    invariant
                        m <= self.settings.regions@.len(),
                        out@.len() == quantity * m,
                        forall|k: int|
                            0 <= k < out@.len() ==> quantity > 0 && (#[trigger] out@[k])@
                                == self.settings.regions@[k / (quantity as int)].name@,
                    decreases self.settings.regions@.len() - m,
                {
                    let mut i: usize = 0;
                    while i < quantity
                        invariant
                            i <= quantity,
                            m < self.settings.regions@.len(),
                            out@.len() == quantity * m + i,
                            forall|k: int|
                                0 <= k < out@.len() ==> quantity > 0 && (#[trigger] out@[k])@
                                    == self.settings.regions@[k / (quantity as int)].name@,
                        decreases quantity - i,
                    {
                        let ghost len = out@.len() as int;
                        proof {
                            let q = quantity as int;
                            let a = m as int;
                            let b = i as int;
                            assert((q * a + b) / q == a) by (nonlinear_arith)
                                requires
                                    0 <= b < q,
                                    a >= 0,
                            ;
                        }
                        out.push(text(self.settings.regions[m].name.as_str()));
                        assert(out@[len]@ == self.settings.regions@[len / (quantity as int)].name@);
                        i = i + 1;
                    }
                    assert(quantity * m + quantity == quantity * (m + 1)) by (nonlinear_arith);
                    m = m + 1;
                }
            },
        }
        out
    }

    /// Up to `quantity` inactive machines in each region, and how many are missing.
    fn select(&self, quantity: usize) -> (r: (Vec<usize>, u128))
        ensures
            r.0@ == available(
                self.settings,
                self.instances@,
                quantity as nat,
                self.settings.regions@.len() as int,
            ),
            r.1 == missing(
                self.settings,
                self.instances@,
                quantity as nat,
                self.settings.regions@.len() as int,
            ),
    {
        let mut out: Vec<usize> = Vec::new();
        let mut shortage: u128 = 0;
        let mut m: usize = 0;
        while m < self.settings.regions.len()
            invariant
                m <= self.settings.regions@.len(),
                shortage == missing(self.settings, self.instances@, quantity as nat, m as int),
                shortage <= m * quantity,
                out@ == available(self.settings, self.instances@, quantity as nat, m as int),
            decreases self.settings.regions@.len() - m,
        {
            let region = self.settings.regions[m].name.as_str();
            let mut some: Vec<usize> = Vec::new();
            let mut i: usize = 0;
            while i < self.instances.len()
                invariant
                    i <= self.instances@.len(),
                    some@.len() <= quantity,
                    some@ == available_in(
                        self.settings,
                        self.instances@,
                        region@,
                        quantity as nat,
                        i as int,
                    ),
                decreases self.instances@.len() - i,
            {
                let x = &self.instances[i];
                if some.len() < quantity && x.is_inactive() && same_text(x.region.as_str(), region)
                    && self.settings.filter_instances(x) {
                    some.push(i);
                }
                i = i + 1;
            }
            proof {
                let (a, q) = (m as int, quantity as int);
                assert((a + 1) * q == a * q + q) by (nonlinear_arith);
                assert(a * q <= 0xffff_ffff_ffff_ffff * 0xffff_ffff_ffff_ffff) by (nonlinear_arith)
                    requires
                        0 <= a <= 0xffff_ffff_ffff_ffff,
                        0 <= q <= 0xffff_ffff_ffff_ffff,
                ;
            }
            shortage = shortage + (quantity - some.len()) as u128;
            out.append(&mut some);
            m = m + 1;
        }
        (out, shortage)
    }

    /// The positions of the machines to start: up to `quantity` inactive ones in each
    /// region.
    pub fn start_selection(&self, quantity: usize) -> (r: Vec<usize>)
        ensures
            r@ == available(
                self.settings,
                self.instances@,
                quantity as nat,
                self.settings.regions@.len() as int,
            ),
    {
        self.select(quantity).0
    }

    /// The positions of the machines to start: `quantity` inactive ones in each
    /// region. Where a region does not have so many, it is told how many are missing.
    pub fn start_plan(&self, quantity: usize) -> (r: Result<Vec<usize>, TestbedError>)
        ensures
            match r {
                Ok(positions) => {
                    &&& missing(
                        self.settings,
                        self.instances@,
                        quantity as nat,
                        self.settings.regions@.len() as int,
                    ) == 0
                    &&& positions@ == available(
                        self.settings,
                        self.instances@,
                        quantity as nat,
                        self.settings.regions@.len() as int,
                    )
                },
                Err(TestbedError::InsufficientCapacity(n)) => n > 0 && n == missing(
                    self.settings,
                    self.instances@,
                    quantity as nat,
                    self.settings.regions@.len() as int,
                ),
            },
    {
        let (positions, shortage) = self.select(quantity);
        if shortage == 0 {
            Ok(positions)
        } else {
            Err(TestbedError::InsufficientCapacity(shortage))
        }
    }

    /// The positions of the machines to stop: the active ones.
    pub fn stop_selection(&self) -> (r: Vec<usize>)
        ensures
            forall|i: int| 0 <= i < r@.len() ==> r@[i] < self.instances@.len()
                && self.instances@[#[trigger] r@[i] as int].status is Active,
            forall|k: usize|
                k < self.instances@.len() && (#[trigger] self.instances@[k as int]).status is Active
                    ==> r@.contains(k),
            forall|i: int, j: int| 0 <= i < j < r@.len() ==> r@[i] < r@[j],
    {
        let mut out: Vec<usize> = Vec::new();
        let mut i: usize = 0;
        while i < self.instances.len()
            invariant
                i <= self.instances@.len(),
                forall|a: int|
                    0 <= a < out@.len() ==> out@[a] < i && self.instances@[#[trigger] out@[a] as int].status is Active,
                forall|k: usize|
                    k < i && (#[trigger] self.instances@[k as int]).status is Active ==> out@.contains(
                        k,
                    ),
                forall|a: int, b: int| 0 <= a < b < out@.len() ==> out@[a] < out@[b],
            decreases self.instances@.len() - i,
        {
            let ghost before = out@;
            if self.instances[i].is_active() {
                out.push(i);
                assert(out@[before.len() as int] == i);
            }
            proof {
                assert forall|k: usize|
                    k < i + 1 && (#[trigger] self.instances@[k as int]).status is Active implies out@.contains(
                    k,
                ) by {
                    if k < i {
                        assert(before.contains(k));
                        let a = choose|a: int| 0 <= a < before.len() && before[a] == k;
                        assert(out@[a] == k);
                    }
                }
            }
            i = i + 1;
        }
        out
    }

    /// Whether every machine has stopped.
    pub fn all_inactive(instances: &Vec<Instance>) -> (b: bool)
        ensures
            b == (forall|i: int|
                0 <= i < instances@.len() ==> (#[trigger] instances@[i]).status is Inactive),
    {
        let mut i: usize = 0;
        while i < instances.len()
            invariant
                i <= instances@.len(),
                forall|k: int| 0 <= k < i ==> (#[trigger] instances@[k]).status is Inactive,
            decreases instances@.len() - i,
        {
            if !instances[i].is_inactive() {
                assert(!(instances@[i as int].status is Inactive));
                return false;
            }
            i = i + 1;
        }
        true
    }

    /// A machine is among those with the given identifiers.
    pub open spec fn is_awaited(ids: Seq<String>, instance: Instance) -> bool {
        exists|k: int| 0 <= k < ids.len() && (#[trigger] ids[k])@ == instance.id@
    }

    /// Whether every machine with one of the identifiers is active.
    pub fn all_active(instances: &Vec<Instance>, ids: &Vec<String>) -> (b: bool)
        ensures
            b == (forall|i: int|
                0 <= i < instances@.len() && Self::is_awaited(ids@, #[trigger] instances@[i])
                    ==> instances@[i].status is Active),
    {
        let mut i: usize = 0;
        while i < instances.len()
            invariant
                i <= instances@.len(),
                forall|k: int|
                    0 <= k < i && Self::is_awaited(ids@, #[trigger] instances@[k])
                        ==> instances@[k].status is Active,
            decreases instances@.len() - i,
        {
            let mut awaited = false;
            let mut j: usize = 0;
            while j < ids.len() && !awaited
                invariant
                    i < instances@.len(),
                    j <= ids@.len(),
                    awaited ==> Self::is_awaited(ids@, instances@[i as int]),
                    !awaited ==> forall|k: int|
                        0 <= k < j ==> (#[trigger] ids@[k])@ != instances@[i as int].id@,
                decreases ids@.len() - j,
            {
                if same_text(ids[j].as_str(), instances[i].id.as_str()) {
                    assert(ids@[j as int]@ == instances@[i as int].id@);
                    awaited = true;
                }
                j = j + 1;
            }
            if awaited && !instances[i].is_active() {
                assert(!(instances@[i as int].status is Active));
                return false;
            }
            i = i + 1;
        }
        true
    }
}

/// How many of the first `k` machines may be started in a region.
pub open spec fn startable_count(
    settings: Settings,
    instances: Seq<Instance>,
    region: Seq<char>,
    k: int,
) -> nat
    decreases k,
{
    if k <= 0 {
        0
    } else {
        let rest = startable_count(settings, instances, region, k - 1);
        if startable(settings, instances[k - 1], region) {
            rest + 1
        } else {
            rest
        }
    }
}

/// As many machines are started in a region as were asked for, or all that may be
/// started there. They are different machines, and each of them may be started.
pub proof fn law_started_machines(
    settings: Settings,
    instances: Seq<Instance>,
    region: Seq<char>,
    quantity: nat,
    k: int,
)
    requires
        0 <= k <= instances.len() <= usize::MAX,
    ensures
        available_in(settings, instances, region, quantity, k).len() == (if startable_count(
            settings,
            instances,
            region,
            k,
        ) < quantity {
            startable_count(settings, instances, region, k)
        } else {
            quantity
        }),
        forall|i: int|
            0 <= i < available_in(settings, instances, region, quantity, k).len() ==> {
                let at = #[trigger] available_in(settings, instances, region, quantity, k)[i];
                at < k && startable(settings, instances[at as int], region)
            },
        forall|i: int, j: int|
            0 <= i < j < available_in(settings, instances, region, quantity, k).len()
                ==> #[trigger] available_in(settings, instances, region, quantity, k)[i]
                < #[trigger] available_in(settings, instances, region, quantity, k)[j],
    decreases k,
{
    if k > 0 {
        law_started_machines(settings, instances, region, quantity, k - 1);
    }
}

/// The positions of the machines that the settings describe are in order, and a position
/// is among them exactly where its machine is described.
pub proof fn law_described_machines(settings: Settings, instances: Seq<Instance>, k: int, i: int)
    requires
        0 <= k <= instances.len() <= usize::MAX,
        0 <= i < k,
    ensures
        described(settings, instances, k).contains(i as usize) <==> settings.matches_settings(
            instances[i],
        ),
        forall|a: int, b: int|
            0 <= a < b < described(settings, instances, k).len() ==> (
            #[trigger] described(settings, instances, k)[a]) < (
            #[trigger] described(settings, instances, k)[b]),
        forall|a: int|
            0 <= a < described(settings, instances, k).len() ==> (
            #[trigger] described(settings, instances, k)[a]) < k,
    decreases k,
{
    let all = described(settings, instances, k);
    let rest = described(settings, instances, k - 1);
    if k > 1 {
        law_described_machines(
            settings,
            instances,
            k - 1,
            if i < k - 1 {
                i
            } else {
                0
            },
        );
    } else {
        assert(rest.len() == 0);
    }
    if i < k - 1 {
        if rest.contains(i as usize) {
            let j = choose|j: int| 0 <= j < rest.len() && rest[j] == i as usize;
            assert(all[j] == i as usize);
        }
        if all.contains(i as usize) {
            let j = choose|j: int| 0 <= j < all.len() && all[j] == i as usize;
            if j < rest.len() {
                assert(rest[j] == i as usize);
            }
        }
    } else {
        if settings.matches_settings(instances[i]) {
            assert(all[all.len() - 1] == i as usize);
        }
        if all.contains(i as usize) {
            let j = choose|j: int| 0 <= j < all.len() && all[j] == i as usize;
            if j < rest.len() {
                assert(rest[j] < k - 1);
            }
        }
    }
}

/// The machines that are started are the first ones: where a machine that may be started
/// is left out, as many as are asked for stand before it.
pub proof fn law_first_machines_are_started(
    settings: Settings,
    instances: Seq<Instance>,
    region: Seq<char>,
    quantity: nat,
    k: int,
    i: int,
)
    requires
        0 <= i < k <= instances.len() <= usize::MAX,
        instances[i].status is Inactive,
        instances[i].region@ == region,
        settings.matches_settings(instances[i]),
    ensures
        available_in(settings, instances, region, quantity, k).contains(i as usize)
            || available_in(settings, instances, region, quantity, i).len() >= quantity,
    decreases k,
{
    let all = available_in(settings, instances, region, quantity, k);
    let rest = available_in(settings, instances, region, quantity, k - 1);
    if i < k - 1 {
        law_first_machines_are_started(settings, instances, region, quantity, k - 1, i);
        if rest.contains(i as usize) {
            let j = choose|j: int| 0 <= j < rest.len() && rest[j] == i as usize;
            assert(all[j] == i as usize);
        }
    } else if rest.len() < quantity {
        assert(all[all.len() - 1] == i as usize);
    }
}

/// In each region the machines that can be started and those that are missing make up the
/// quantity that is asked for.
pub proof fn law_missing_machines(
    settings: Settings,
    instances: Seq<Instance>,
    quantity: nat,
    m: int,
)
    requires
        0 <= m <= settings.regions@.len(),
    ensures
        available(settings, instances, quantity, m).len() + missing(
            settings,
            instances,
            quantity,
            m,
        ) == m * quantity,
    decreases m,
{
    if m > 0 {
        law_missing_machines(settings, instances, quantity, m - 1);
        assert((m - 1) * quantity + quantity == m * quantity) by (nonlinear_arith);
    } else {
        assert(m * quantity == 0) by (nonlinear_arith)
            requires
                m == 0,
        ;
    }
}

/// The machines that count as active are those that the settings describe and that are.
pub proof fn law_active_machines(t: Testbed, k: int)
    requires
        0 <= k <= t.instances@.len(),
    ensures
        ({
            let active = Set::new(
                |i: int|
                    0 <= i < k && t.settings.matches_settings(t.instances@[i])
                        && t.instances@[i].status is Active,
            );
            active.finite() && active_count(t, k) == active.len()
        }),
    decreases k,
{
    let active = Set::new(
        |i: int|
            0 <= i < k && t.settings.matches_settings(t.instances@[i])
                && t.instances@[i].status is Active,
    );
    if k == 0 {
        assert(active =~= Set::<int>::empty());
    } else {
        law_active_machines(t, k - 1);
        let before = Set::new(
            |i: int|
                0 <= i < k - 1 && t.settings.matches_settings(t.instances@[i])
                    && t.instances@[i].status is Active,
        );
        if t.settings.matches_settings(t.instances@[k - 1]) && t.instances@[k - 1].status is Active {
            assert(active =~= before.insert(k - 1));
        } else {
            assert(active =~= before);
        }
    }
}

/// The lines of a region show the machines that the settings describe, that are in it and
/// not gone.
pub proof fn law_shown_machines(t: Testbed, region: Seq<char>, k: int)
    requires
        0 <= k <= t.instances@.len(),
    ensures
        ({
            let shown = Set::new(
                |i: int|
                    0 <= i < k && t.settings.matches_settings(t.instances@[i])
                        && t.instances@[i].region@ == region && !(
                    t.instances@[i].status is Terminated),
            );
            shown.finite() && machine_rows(t, region, k).1 == shown.len()
        }),
    decreases k,
{
    let shown = Set::new(
        |i: int|
            0 <= i < k && t.settings.matches_settings(t.instances@[i]) && t.instances@[i].region@
                == region && !(t.instances@[i].status is Terminated),
    );
    if k == 0 {
        assert(shown =~= Set::<int>::empty());
    } else {
        law_shown_machines(t, region, k - 1);
        let before = Set::new(
            |i: int|
                0 <= i < k - 1 && t.settings.matches_settings(t.instances@[i])
                    && t.instances@[i].region@ == region && !(
                t.instances@[i].status is Terminated),
        );
        let x = t.instances@[k - 1];
        if t.settings.matches_settings(x) && x.region@ == region && !(x.status is Terminated) {
            assert(shown =~= before.insert(k - 1));
        } else {
            assert(shown =~= before);
        }
    }
}

/// A machine that the settings describe gets its line in its own region: it carries the
/// number of machines that were shown before it, and whether it is active. Before every
/// fifth there is a blank line. Any other machine changes nothing.
pub proof fn law_machine_gets_its_line(t: Testbed, region: Seq<char>, k: int)
    requires
        0 < k <= t.instances@.len(),
    ensures
        ({
            let x = t.instances@[k - 1];
            let (before, number) = machine_rows(t, region, k - 1);
            let (after, next) = machine_rows(t, region, k);
            let here = t.settings.matches_settings(x) && x.region@ == region;
            let blank: nat = if number % 5 == 0 {
                1
            } else {
                0
            };
            &&& !here ==> after == before && next == number
            &&& here ==> before.is_prefix_of(after)
            &&& here && blank == 1 ==> after[before.len() as int] is Blank
            &&& here && x.status is Terminated ==> after.len() == before.len() + blank && next
                == number
            &&& here && !(x.status is Terminated) ==> {
                &&& next == number + 1
                &&& after.len() == before.len() + blank + 1
                &&& after.last() is Machine
                &&& after.last()->number == number
                &&& after.last()->active == (x.status is Active)
                &&& after.last()->address == x.main_ip.dotted()
            }
        }),
{
}

/// Each region is named, before the lines of its machines, and a blank line stands between
/// two regions.
pub proof fn law_regions_are_named(t: Testbed, m: int)
    requires
        0 < m <= t.settings.regions@.len(),
    ensures
        ({
            let name = t.settings.regions@[m - 1].name@;
            let before = region_rows(t, m - 1);
            let after = region_rows(t, m);
            let lines = machine_rows(t, name, t.instances@.len() as int).0;
            &&& before.is_prefix_of(after)
            &&& after[before.len() as int] == RowView::Region(uppercased(name))
            &&& after.subrange(before.len() as int + 1, (before.len() + 1 + lines.len()) as int) =~= lines
            &&& m < t.settings.regions@.len() ==> after.len() == before.len() + lines.len() + 2
                && after.last() is Blank
            &&& m == t.settings.regions@.len() ==> after.len() == before.len() + lines.len() + 1
        }),
{
}

} // verus!

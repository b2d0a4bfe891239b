//! The settings of a testbed and the machines that it consists of.
use crate::decimal;
use crate::decimal::push_decimal;
use crate::text::{characters, same_text};
use vstd::prelude::*;

verus! {

/// What a machine is doing.
#[derive(Clone, Copy, Debug, PartialEq, Eq, Structural)]
pub enum InstanceStatus {
    Active,
    Inactive,
    Terminated,
}

/// An address in the network, by its octets.
#[derive(Clone, Copy, Debug, PartialEq, Eq, Structural)]
pub struct Ipv4 {
    pub a: u8,
    pub b: u8,
    pub c: u8,
    pub d: u8,
}

impl Ipv4 {
    /// The address in dotted form.
    pub open spec fn dotted(&self) -> Seq<char> {
        decimal::decimal(self.a as nat) + "."@ + decimal::decimal(self.b as nat) + "."@
            + decimal::decimal(self.c as nat) + "."@ + decimal::decimal(self.d as nat)
    }

    /// The address in dotted form.
    pub fn to_text(&self) -> (r: String)
        ensures
            r@ == self.dotted(),
    {
        let mut s = decimal::decimal_text(self.a as u64);
        s.append(".");
        push_decimal(&mut s, self.b as u64);
        s.append(".");
        push_decimal(&mut s, self.c as u64);
        s.append(".");
        push_decimal(&mut s, self.d as u64);
        s
    }
}

/// A machine of the testbed.
#[derive(Clone, Debug)]
pub struct Instance {
    pub id: String,
    pub region: String,
    pub main_ip: Ipv4,
    pub tags: Vec<String>,
    pub specs: String,
    pub status: InstanceStatus,
    /// The host that connections are made to.
    pub ssh_host: String,
    /// The port that connections are made to.
    pub ssh_port: u16,
    /// The group that the load balancer forwards connections to.
    pub nlb_target_group_arn: String,
    /// The listener of the load balancer.
    pub nlb_listener_arn: String,
}

/// A machine of the testbed, by its contents.
#[verifier::ext_equal]
pub struct InstanceView {
    pub id: Seq<char>,
    pub region: Seq<char>,
    pub main_ip: Ipv4,
    pub tags: Seq<Seq<char>>,
    pub specs: Seq<char>,
    pub status: InstanceStatus,
    pub ssh_host: Seq<char>,
    pub ssh_port: u16,
    pub nlb_target_group_arn: Seq<char>,
    pub nlb_listener_arn: Seq<char>,
}

impl View for Instance {
    type V = InstanceView;

    open spec fn view(&self) -> InstanceView {
        InstanceView {
            id: self.id@,
            region: self.region@,
            main_ip: self.main_ip,
            tags: crate::text::texts(self.tags@),
            specs: self.specs@,
            status: self.status,
            ssh_host: self.ssh_host@,
            ssh_port: self.ssh_port,
            nlb_target_group_arn: self.nlb_target_group_arn@,
            nlb_listener_arn: self.nlb_listener_arn@,
        }
    }
}

impl Instance {
    pub fn is_active(&self) -> (b: bool)
        ensures
            b == (self.status is Active),
    {
        self.status == InstanceStatus::Active
    }

    /// Whether the machine is neither active nor gone.
    pub fn is_inactive(&self) -> (b: bool)
        ensures
            b == (self.status is Inactive),
    {
        self.status == InstanceStatus::Inactive
    }

    pub fn is_terminated(&self) -> (b: bool)
        ensures
            b == (self.status is Terminated),
    {
        self.status == InstanceStatus::Terminated
    }
}

/// A region that machines run in.
#[derive(Clone, Debug)]
pub struct RegionConfig {
    pub name: String,
    /// The host through which its machines are reached.
    pub aga_dns_name: String,
    /// Its load balancer.
    pub nlb_arn: String,
}

/// The settings of a testbed.
#[derive(Clone, Debug)]
pub struct Settings {
    pub testbed_id: String,
    pub regions: Vec<RegionConfig>,
    pub specs: String,
    pub working_dir: String,
    pub ssh_private_key_file: String,
    /// The first port that is given to a machine, in each region.
    pub ssh_start_port: u16,
    /// Whether to use the drives of the machines.
    pub nvme: bool,
}

/// A character in lower case, within ASCII.
pub open spec fn lower(c: char) -> char {
    if 'A' <= c && c <= 'Z' {
        ((c as u8) + 32u8) as u8 as char
    } else {
        c
    }
}

/// The name of a machine type without dots, in lower case.
pub open spec fn normalized(s: Seq<char>, k: int) -> Seq<char>
    decreases k,
{
    if k <= 0 {
        Seq::empty()
    } else {
        let rest = normalized(s, k - 1);
        if s[k - 1] == '.' {
            rest
        } else {
            rest.push(lower(s[k - 1]))
        }
    }
}

fn normalize(s: &str) -> (r: Vec<char>)
    ensures
        r@ == normalized(s@, s@.len() as int),
{
    let cs = characters(s);
    let mut out: Vec<char> = Vec::new();
    let mut i: usize = 0;
    while i < cs.len()
        invariant
            i <= cs@.len(),
            cs@ == s@,
            out@ == normalized(s@, i as int),
        decreases cs@.len() - i,
    {
        let c = cs[i];
        if c != '.' {
            if 'A' <= c && c <= 'Z' {
                out.push(((c as u8) + 32) as char);
            } else {
                out.push(c);
            }
        }
        i = i + 1;
    }
    out
}

impl Settings {
    /// A region is one of the testbed's.
    pub open spec fn has_region(&self, region: Seq<char>) -> bool {
        exists|i: int| 0 <= i < self.regions@.len() && (#[trigger] self.regions@[i]).name@ == region
    }

    /// The first region of a name.
    pub open spec fn is_config(&self, region: Seq<char>, i: int) -> bool {
        &&& 0 <= i < self.regions@.len()
        &&& self.regions@[i].name@ == region
        &&& forall|k: int| 0 <= k < i ==> (#[trigger] self.regions@[k]).name@ != region
    }

    /// Where a region of a name is described first.
    pub open spec fn config_of(&self, region: Seq<char>) -> RegionConfig {
        self.regions@[choose|i: int| self.is_config(region, i)]
    }

    /// The description of a region, if it is one of the testbed's.
    pub fn get_region_config(&self, region: &str) -> (r: Option<&RegionConfig>)
        ensures
            r is Some <==> self.has_region(region@),
            r matches Some(c) ==> *c == self.config_of(region@),
    {
        let mut i: usize = 0;
        while i < self.regions.len()
            invariant
                i <= self.regions@.len(),
                forall|k: int| 0 <= k < i ==> (#[trigger] self.regions@[k]).name@ != region@,
            decreases self.regions@.len() - i,
        {
            if same_text(self.regions[i].name.as_str(), region) {
                proof {
                    assert(self.is_config(region@, i as int));
                    let j = choose|j: int| self.is_config(region@, j);
                    if j < i {
                        assert(self.regions@[j].name@ != region@);
                    } else if i < j {
                        assert(self.regions@[i as int].name@ != region@);
                    }
                }
                return Some(&self.regions[i]);
            }
            i = i + 1;
        }
        None
    }

    /// A machine is one that the settings describe: in one of the regions and
    /// of the right type, whose name is compared without dots and case.
    pub open spec fn matches_settings(&self, instance: Instance) -> bool {
        &&& self.has_region(instance.region@)
        &&& normalized(instance.specs@, instance.specs@.len() as int) == normalized(
            self.specs@,
            self.specs@.len() as int,
        )
    }

    /// Whether a machine is one that the settings describe.
    pub fn filter_instances(&self, instance: &Instance) -> (b: bool)
        ensures
            b == self.matches_settings(*instance),
    {
        let mut found = false;
        let mut i: usize = 0;
        while i < self.regions.len() && !found
            invariant
                i <= self.regions@.len(),
                found ==> self.has_region(instance.region@),
                !found ==> forall|k: int|
                    0 <= k < i ==> (#[trigger] self.regions@[k]).name@ != instance.region@,
            decreases self.regions@.len() - i,
        {
            if same_text(self.regions[i].name.as_str(), instance.region.as_str()) {
                assert(self.regions@[i as int].name@ == instance.region@);
                found = true;
            }
            i = i + 1;
        }
        if !found {
            return false;
        }
        let a = normalize(instance.specs.as_str());
        let b = normalize(self.specs.as_str());
        if a.len() != b.len() {
            return false;
        }
        let mut j: usize = 0;
        while j < a.len()
            invariant
                j <= a@.len(),
                a@.len() == b@.len(),
                a@ == normalized(instance.specs@, instance.specs@.len() as int),
                b@ == normalized(self.specs@, self.specs@.len() as int),
                forall|k: int| 0 <= k < j ==> a@[k] == b@[k],
            decreases a@.len() - j,
        {
            if a[j] != b[j] {
                assert(a@[j as int] != b@[j as int]);
                return false;
            }
            j = j + 1;
        }
        assert(a@ =~= b@);
        true
    }
}

proof fn lemma_normalized_split(a: Seq<char>, b: Seq<char>, k: int)
    requires
        0 <= k <= a.len() + b.len(),
    ensures
        k <= a.len() ==> normalized(a + b, k) == normalized(a, k),
        k >= a.len() ==> normalized(a + b, k) == normalized(a, a.len() as int) + normalized(
            b,
            k - a.len(),
        ),
    decreases k,
{
    if k > 0 {
        lemma_normalized_split(a, b, k - 1);
        if k <= a.len() {
            assert((a + b)[k - 1] == a[k - 1]);
        } else {
            let c = b[k - 1 - a.len()];
            assert((a + b)[k - 1] == c);
            let x = normalized(a, a.len() as int);
            let y = normalized(b, k - 1 - a.len());
            assert((x + y).push(lower(c)) =~= x + y.push(lower(c)));
        }
    }
    if k == a.len() {
        assert(normalized(a, k) + normalized(b, 0) =~= normalized(a, k));
    }
}

/// A machine type is compared character by character, without dots and whatever the case
/// of its letters.
pub proof fn law_machine_types_are_compared(a: Seq<char>, b: Seq<char>, c: char)
    ensures
        normalized(a + b, (a + b).len() as int) == normalized(a, a.len() as int) + normalized(
            b,
            b.len() as int,
        ),
        c == '.' ==> normalized(seq![c], 1).len() == 0,
        c != '.' ==> normalized(seq![c], 1).len() == 1,
        'A' <= c && c <= 'Z' ==> normalized(seq![c], 1)[0] as int == c as int + 32,
        c != '.' && !('A' <= c && c <= 'Z') ==> normalized(seq![c], 1)[0] == c,
{
    lemma_normalized_split(a, b, (a + b).len() as int);
    let s = seq![c];
    assert(normalized(s, 0).len() == 0);
    assert(s[0] == c);
    assert(normalized(s, 1) == if s[0] == '.' {
        normalized(s, 0)
    } else {
        normalized(s, 0).push(lower(s[0]))
    });
}

/// A machine is one of the testbed's exactly where one of the regions is its own and its
/// type is the one that is asked for.
pub proof fn law_testbed_machines(settings: Settings, instance: Instance)
    ensures
        settings.matches_settings(instance) ==> exists|i: int|
            0 <= i < settings.regions@.len() && (#[trigger] settings.regions@[i]).name@
                == instance.region@,
        (forall|i: int|
            0 <= i < settings.regions@.len() ==> (#[trigger] settings.regions@[i]).name@
                != instance.region@) ==> !settings.matches_settings(instance),
        settings.has_region(instance.region@) && instance.specs@ == settings.specs@
            ==> settings.matches_settings(instance),
{
}

} // verus!

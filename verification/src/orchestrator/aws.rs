//! Machines on a cloud provider: how they are listed, provisioned and deleted.
use crate::decimal;
use crate::decimal::push_decimal;
use crate::orchestrator::settings::{Instance, InstanceStatus, InstanceView, Ipv4, Settings};
use crate::text;
use crate::text::{text, text_contains};
use crate::textmap::TextMap;
use vstd::prelude::*;

verus! {

/// The name of the user on the machines.
pub fn username() -> (r: String)
    ensures
        r@ == "ubuntu"@,
{
    text("ubuntu")
}

/// The image that machines are started from.
pub fn os_image() -> (r: String)
    ensures
        r@ == "Canonical, Ubuntu, 24.04 LTS, arm64 noble image build on 2024-04-23"@,
{
    text("Canonical, Ubuntu, 24.04 LTS, arm64 noble image build on 2024-04-23")
}

/// The size of a machine's volume, in gigabytes.
pub const DEFAULT_EBS_SIZE_GB: i32 = 500;

/// How long to wait before asking again, in seconds.
pub const PAUSE: u64 = 5;

/// What went wrong at the provider.
#[derive(Debug)]
pub enum CloudProviderError {
    RequestError(String),
    UnexpectedResponse(String),
}

/// A text in lower case.
pub uninterp spec fn lowercased(s: Seq<char>) -> Seq<char>;

/// `str::to_lowercase`: the text determines the result.
#[verifier::external_body]
fn lowercase(s: &str) -> (r: String)
    ensures
        r@ == lowercased(s@),
{
    s.to_lowercase()
}

/// Whether a text in lower case speaks of a duplicate.
pub fn names_duplicate(message: &str) -> (b: bool)
    ensures
        b == text::contains_text(message@, "duplicate"@),
{
    text_contains(message, "duplicate")
}

/// Whether an error only says that the request was made before.
pub fn is_duplicate(message: &str) -> (b: bool)
    ensures
        b == text::contains_text(lowercased(message@), "duplicate"@),
{
    names_duplicate(lowercase(message).as_str())
}

/// A rule that lets traffic in: its protocol, and the first and the last port.
#[derive(Debug)]
pub struct IngressRule {
    pub protocol: String,
    pub from_port: i32,
    pub to_port: i32,
}

/// The contents of rules.
pub open spec fn rules(v: Seq<IngressRule>) -> Seq<(Seq<char>, i32, i32)> {
    Seq::new(v.len(), |i: int| (v[i].protocol@, v[i].from_port, v[i].to_port))
}

/// The rules of a testbed: all ports of the protocols that have ports, and all
/// messages of the others.
pub fn ingress_rules() -> (r: Vec<IngressRule>)
    ensures
        rules(r@) == seq![
            ("tcp"@, 0i32, 65535i32),
            ("udp"@, 0i32, 65535i32),
            ("icmp"@, -1i32, -1i32),
            ("icmpv6"@, -1i32, -1i32),
        ],
{
    let mut out: Vec<IngressRule> = Vec::new();
    out.push(IngressRule { protocol: text("tcp"), from_port: 0, to_port: 65535 });
    out.push(IngressRule { protocol: text("udp"), from_port: 0, to_port: 65535 });
    out.push(IngressRule { protocol: text("icmp"), from_port: -1, to_port: -1 });
    out.push(IngressRule { protocol: text("icmpv6"), from_port: -1, to_port: -1 });
    assert(rules(out@) =~= seq![
        ("tcp"@, 0i32, 65535i32),
        ("udp"@, 0i32, 65535i32),
        ("icmp"@, -1i32, -1i32),
        ("icmpv6"@, -1i32, -1i32),
    ]);
    out
}

/// The image of the first description.
pub fn image_id(images: &Vec<Option<String>>) -> (r: Result<String, CloudProviderError>)
    ensures
        images@.len() == 0 ==> (r matches Err(CloudProviderError::RequestError(m)) && m@
            == "Cannot find image id"@),
        images@.len() > 0 && images@[0] is None ==> (r matches Err(
            CloudProviderError::UnexpectedResponse(m),
        ) && m@ == "Received image description without id"@),
        images@.len() > 0 && images@[0] is Some ==> (r matches Ok(id) && id@ == images@[0]->0@),
{
    if images.len() == 0 {
        return Err(CloudProviderError::RequestError(text("Cannot find image id")));
    }
    match &images[0] {
        Some(id) => Ok(text(id.as_str())),
        None => Err(
            CloudProviderError::UnexpectedResponse(text("Received image description without id")),
        ),
    }
}

/// The commands that mount the first drive at a directory.
pub open spec fn mount_commands(directory: Seq<char>) -> Seq<Seq<char>> {
    seq![
        "(sudo mkfs.ext4 -E nodiscard /dev/nvme1n1 || true)"@,
        "(sudo mount /dev/nvme1n1 "@ + directory + " || true)"@,
        "sudo chmod 777 -R "@ + directory,
    ]
}

/// The command that unmounts a directory.
pub open spec fn unmount_commands(directory: Seq<char>) -> Seq<Seq<char>> {
    seq!["(sudo umount "@ + directory + " || true)"@]
}

/// The commands that mount the first drive at the working directory.
pub fn nvme_mount_command(settings: &Settings) -> (r: Vec<String>)
    ensures
        text::texts(r@) == mount_commands(settings.working_dir@),
{
    let mut mount = text("(sudo mount /dev/nvme1n1 ");
    mount.append(settings.working_dir.as_str());
    mount.append(" || true)");
    let mut chmod = text("sudo chmod 777 -R ");
    chmod.append(settings.working_dir.as_str());
    let mut out: Vec<String> = Vec::new();
    out.push(text("(sudo mkfs.ext4 -E nodiscard /dev/nvme1n1 || true)"));
    out.push(mount);
    out.push(chmod);
    assert(text::texts(out@) =~= mount_commands(settings.working_dir@));
    out
}

/// The command that unmounts the working directory.
pub fn nvme_unmount_command(settings: &Settings) -> (r: Vec<String>)
    ensures
        text::texts(r@) == unmount_commands(settings.working_dir@),
{
    let mut unmount = text("(sudo umount ");
    unmount.append(settings.working_dir.as_str());
    unmount.append(" || true)");
    let mut out: Vec<String> = Vec::new();
    out.push(unmount);
    assert(text::texts(out@) =~= unmount_commands(settings.working_dir@));
    out
}

/// The commands that set a machine up, given whether machines of its type have
/// such drives.
pub fn instance_setup_commands(settings: &Settings, nvme_supported: bool) -> (r: Vec<String>)
    ensures
        text::texts(r@) == (if settings.nvme && nvme_supported {
            mount_commands(settings.working_dir@)
        } else {
            unmount_commands(settings.working_dir@)
        }),
{
    if settings.nvme && nvme_supported {
        nvme_mount_command(settings)
    } else {
        nvme_unmount_command(settings)
    }
}

/// A machine, as the provider describes it.
#[derive(Debug)]
pub struct Machine {
    pub id: String,
    /// Stopped machines have none.
    pub public_ip: Option<Ipv4>,
    pub specs: String,
    pub status: InstanceStatus,
}

/// How a machine is reached: the port, the group and the listener.
#[derive(Debug)]
pub struct Route {
    pub port: u16,
    pub target_group: String,
    pub listener: String,
}

/// How a machine is reached, by its contents.
pub open spec fn route(r: Route) -> (u16, Seq<char>, Seq<char>) {
    (r.port, r.target_group@, r.listener@)
}

/// The address of a machine, or no address.
pub open spec fn address(m: Machine) -> Ipv4 {
    match m.public_ip {
        Some(ip) => ip,
        None => Ipv4 { a: 0, b: 0, c: 0, d: 0 },
    }
}

fn address_of(m: &Machine) -> (r: Ipv4)
    ensures
        r == address(*m),
{
    match m.public_ip {
        Some(ip) => ip,
        None => Ipv4 { a: 0, b: 0, c: 0, d: 0 },
    }
}

/// A machine of the testbed that is reached in some way.
pub open spec fn reachable(
    settings: Settings,
    region: Seq<char>,
    m: Machine,
    r: (u16, Seq<char>, Seq<char>),
) -> InstanceView {
    InstanceView {
        id: m.id@,
        region,
        main_ip: address(m),
        tags: seq![settings.testbed_id@],
        specs: m.specs@,
        status: m.status,
        ssh_host: settings.config_of(region).aga_dns_name@,
        ssh_port: r.0,
        nlb_target_group_arn: r.1,
        nlb_listener_arn: r.2,
    }
}

/// A machine of the testbed that cannot be reached.
pub open spec fn unreachable_machine(
    settings: Settings,
    region: Seq<char>,
    m: Machine,
) -> InstanceView {
    InstanceView {
        id: m.id@,
        region,
        main_ip: address(m),
        tags: seq![settings.testbed_id@],
        specs: m.specs@,
        status: m.status,
        ssh_host: "unknown.aga.com"@,
        ssh_port: 0,
        nlb_target_group_arn: "unknown"@,
        nlb_listener_arn: "unknown"@,
    }
}

fn tags(settings: &Settings) -> (r: Vec<String>)
    ensures
        text::texts(r@) == seq![settings.testbed_id@],
{
    let mut out: Vec<String> = Vec::new();
    out.push(text(settings.testbed_id.as_str()));
    assert(text::texts(out@) =~= seq![settings.testbed_id@]);
    out
}

/// A machine of the testbed, out of what the provider says of it and how it is
/// reached.
pub fn make_instance(
    settings: &Settings,
    region: &str,
    machine: &Machine,
    assigned_port: u16,
    target_group_arn: &str,
    listener_arn: &str,
) -> (r: Instance)
    requires
        settings.has_region(region@),
    ensures
        r@ == reachable(
            *settings,
            region@,
            *machine,
            (assigned_port, target_group_arn@, listener_arn@),
        ),
{
    let ssh_host = match settings.get_region_config(region) {
        Some(c) => text(c.aga_dns_name.as_str()),
        None => String::new(),
    };
    Instance {
        id: text(machine.id.as_str()),
        region: text(region),
        main_ip: address_of(machine),
        tags: tags(settings),
        specs: text(machine.specs.as_str()),
        status: machine.status,
        ssh_host,
        ssh_port: assigned_port,
        nlb_target_group_arn: text(target_group_arn),
        nlb_listener_arn: text(listener_arn),
    }
}

/// A listener of a load balancer, as the provider describes it: its port, the
/// group of its first action, and its name.
#[derive(Debug)]
pub struct Listener {
    pub port: Option<i32>,
    pub target_group: Option<String>,
    pub arn: Option<String>,
}

/// The listener forwards connections to a machine of the testbed.
pub open spec fn forwards(settings: Settings, l: Listener) -> bool {
    &&& l.port is Some
    &&& l.target_group is Some
    &&& l.arn is Some
    &&& l.port->0 >= settings.ssh_start_port
}

/// The ports and the listeners of groups, after the first `k` listeners.
pub open spec fn listeners_of(settings: Settings, listeners: Seq<Listener>, k: int) -> Map<
    Seq<char>,
    (u16, Seq<char>),
>
    decreases k,
{
    if k <= 0 {
        Map::empty()
    } else {
        let before = listeners_of(settings, listeners, k - 1);
        let l = listeners[k - 1];
        if forwards(settings, l) {
            before.insert(l.target_group->0@, ((l.port->0 as int % 65536) as u16, l.arn->0@))
        } else {
            before
        }
    }
}

/// The contents of ports and listeners.
pub open spec fn ports(m: Map<Seq<char>, (u16, String)>) -> Map<Seq<char>, (u16, Seq<char>)> {
    Map::new(|k: Seq<char>| m.dom().contains(k), |k: Seq<char>| (m[k].0, m[k].1@))
}

/// The ports and the listeners of groups.
pub fn map_listeners(settings: &Settings, listeners: &Vec<Listener>) -> (r: TextMap<(u16, String)>)
    ensures
        r.wf(),
        ports(r@) == listeners_of(*settings, listeners@, listeners@.len() as int),
{
    let mut out: TextMap<(u16, String)> = TextMap::new();
    assert(ports(out@) =~= Map::empty());
    let mut i: usize = 0;
    while i < listeners.len()
        invariant
            i <= listeners@.len(),
            out.wf(),
            ports(out@) == listeners_of(*settings, listeners@, i as int),
        decreases listeners@.len() - i,
    {
        let ghost before = out@;
        let l = &listeners[i];
        if let (Some(port), Some(group), Some(arn)) = (&l.port, &l.target_group, &l.arn) {
            if *port >= settings.ssh_start_port as i32 {
                let low: u16 = ((*port as u32) % 65536) as u16;
                let name = text(arn.as_str());
                out.insert(group.as_str(), (low, name));
                assert(ports(out@) =~= ports(before).insert(group@, (low, arn@)));
            }
        }
        i = i + 1;
    }
    out
}

/// What the provider says of a group: where it stands, and the first machine that
/// it forwards to, if there is one.
#[derive(Debug)]
pub struct TargetReply {
    pub target_group: String,
    pub port: u16,
    pub listener: String,
    pub target: Option<String>,
}

/// How machines are reached, after the first `k` replies.
pub open spec fn routes_of(replies: Seq<TargetReply>, k: int) -> Map<
    Seq<char>,
    (u16, Seq<char>, Seq<char>),
>
    decreases k,
{
    if k <= 0 {
        Map::empty()
    } else {
        let before = routes_of(replies, k - 1);
        let t = replies[k - 1];
        match t.target {
            Some(id) => before.insert(id@, (t.port, t.target_group@, t.listener@)),
            None => before,
        }
    }
}

/// The contents of routes.
pub open spec fn routes(m: Map<Seq<char>, Route>) -> Map<Seq<char>, (u16, Seq<char>, Seq<char>)> {
    Map::new(|k: Seq<char>| m.dom().contains(k), |k: Seq<char>| route(m[k]))
}

/// How machines are reached.
pub fn map_targets(replies: &Vec<TargetReply>) -> (r: TextMap<Route>)
    ensures
        r.wf(),
        routes(r@) == routes_of(replies@, replies@.len() as int),
{
    let mut out: TextMap<Route> = TextMap::new();
    assert(routes(out@) =~= Map::empty());
    let mut i: usize = 0;
    while i < replies.len()
        invariant
            i <= replies@.len(),
            out.wf(),
            routes(out@) == routes_of(replies@, i as int),
        decreases replies@.len() - i,
    {
        let ghost before = out@;
        let t = &replies[i];
        if let Some(id) = &t.target {
            let r = Route {
                port: t.port,
                target_group: text(t.target_group.as_str()),
                listener: text(t.listener.as_str()),
            };
            out.insert(id.as_str(), r);
            assert(routes(out@) =~= routes(before).insert(
                id@,
                (t.port, t.target_group@, t.listener@),
            ));
        }
        i = i + 1;
    }
    out
}

/// The machines of a region among the first `k`: those that can be reached, and
/// those others that are not gone.
pub open spec fn listed(
    settings: Settings,
    region: Seq<char>,
    routes: Map<Seq<char>, (u16, Seq<char>, Seq<char>)>,
    machines: Seq<Machine>,
    k: int,
) -> Seq<InstanceView>
    decreases k,
{
    if k <= 0 {
        Seq::empty()
    } else {
        let before = listed(settings, region, routes, machines, k - 1);
        let m = machines[k - 1];
        if routes.dom().contains(m.id@) {
            before.push(reachable(settings, region, m, routes[m.id@]))
        } else if !(m.status is Terminated) {
            before.push(unreachable_machine(settings, region, m))
        } else {
            before
        }
    }
}

/// The contents of machines.
pub open spec fn instance_views(v: Seq<Instance>) -> Seq<InstanceView> {
    Seq::new(v.len(), |i: int| v[i]@)
}

/// The machines of a region.
pub fn list_region(
    settings: &Settings,
    region: &str,
    mapping: &TextMap<Route>,
    machines: &Vec<Machine>,
) -> (r: Vec<Instance>)
    requires
        settings.has_region(region@),
        mapping.wf(),
    ensures
        instance_views(r@) == listed(
            *settings,
            region@,
            routes(mapping@),
            machines@,
            machines@.len() as int,
        ),
{
    let mut out: Vec<Instance> = Vec::new();
    assert(instance_views(out@) =~= Seq::empty());
    let mut i: usize = 0;
    while i < machines.len()
        invariant
            i <= machines@.len(),
            settings.has_region(region@),
            mapping.wf(),
            instance_views(out@) == listed(
                *settings,
                region@,
                routes(mapping@),
                machines@,
                i as int,
            ),
        decreases machines@.len() - i,
    {
        let ghost before = out@;
        let m = &machines[i];
        match mapping.get(m.id.as_str()) {
            Some(r) => {
                let x = make_instance(
                    settings,
                    region,
                    m,
                    r.port,
                    r.target_group.as_str(),
                    r.listener.as_str(),
                );
                out.push(x);
                assert(instance_views(out@) =~= instance_views(before).push(x@));
            },
            None => {
                if m.status != InstanceStatus::Terminated {
                    let x = Instance {
                        id: text(m.id.as_str()),
                        region: text(region),
                        main_ip: address_of(m),
                        tags: tags(settings),
                        specs: text(m.specs.as_str()),
                        status: m.status,
                        ssh_host: text("unknown.aga.com"),
                        ssh_port: 0,
                        nlb_target_group_arn: text("unknown"),
                        nlb_listener_arn: text("unknown"),
                    };
                    out.push(x);
                    assert(x@ == unreachable_machine(*settings, region@, *m));
                    assert(instance_views(out@) =~= instance_views(before).push(x@));
                }
            },
        }
        i = i + 1;
    }
    out
}

/// The names of the machines of a region among the first `k`, in turn.
pub open spec fn ids_in(instances: Seq<Instance>, region: Seq<char>, k: int) -> Seq<Seq<char>>
    decreases k,
{
    if k <= 0 {
        Seq::empty()
    } else if instances[k - 1].region@ == region {
        ids_in(instances, region, k - 1).push(instances[k - 1].id@)
    } else {
        ids_in(instances, region, k - 1)
    }
}

/// The names of machines by region: a region is listed where it has machines.
pub fn ids_by_region(instances: &Vec<Instance>) -> (r: TextMap<Vec<String>>)
    ensures
        r.wf(),
        forall|region: Seq<char>| #[trigger]
            r@.dom().contains(region) == (ids_in(instances@, region, instances@.len() as int).len()
                > 0),
        forall|region: Seq<char>|
            r@.dom().contains(region) ==> text::texts((#[trigger] r@[region])@) == ids_in(
                instances@,
                region,
                instances@.len() as int,
            ),
{
    let mut out: TextMap<Vec<String>> = TextMap::new();
    let mut i: usize = 0;
    while i < instances.len()
        invariant
            i <= instances@.len(),
            out.wf(),
            forall|region: Seq<char>| #[trigger]
                out@.dom().contains(region) == (ids_in(instances@, region, i as int).len() > 0),
            forall|region: Seq<char>|
                out@.dom().contains(region) ==> text::texts((#[trigger] out@[region])@) == ids_in(
                    instances@,
                    region,
                    i as int,
                ),
        decreases instances@.len() - i,
    {
        let x = &instances[i];
        let ghost before = out@;
        let mut ids = match out.remove(x.region.as_str()) {
            Some(v) => v,
            None => Vec::new(),
        };
        proof {
            if before.dom().contains(x.region@) {
                assert(text::texts(before[x.region@]@) == ids_in(instances@, x.region@, i as int));
            } else {
                assert(ids_in(instances@, x.region@, i as int).len() == 0);
                assert(text::texts(ids@) =~= ids_in(instances@, x.region@, i as int));
            }
        }
        let id = text(x.id.as_str());
        proof {
            text::lemma_texts_push(ids@, id);
        }
        ids.push(id);
        out.insert(x.region.as_str(), ids);
        proof {
            assert(out@ =~= before.insert(x.region@, ids));
            assert forall|region: Seq<char>|
                out@.dom().contains(region) implies text::texts((#[trigger] out@[region])@)
                == ids_in(instances@, region, i as int + 1) by {
                if region != x.region@ {
                    assert(before.dom().contains(region));
                    assert(out@[region] == before[region]);
                }
            }
            assert forall|region: Seq<char>| #[trigger]
                out@.dom().contains(region) == (ids_in(instances@, region, i as int + 1).len()
                    > 0) by {
                assert(before.dom().contains(region) == (ids_in(instances@, region, i as int).len()
                    > 0));
            }
        }
        i = i + 1;
    }
    out
}

/// A text in quotation marks, with what is special in it escaped.
pub uninterp spec fn quoted(s: Seq<char>) -> Seq<char>;

/// `Debug` of `str`, through `format!`: the text determines the result.
#[verifier::external_body]
fn quote(s: &str) -> (r: String)
    ensures
        r@ == quoted(s@),
{
    format!("{s:?}")
}

/// How often a region is asked for among the first `k` requests.
pub open spec fn times(requests: Seq<Seq<char>>, region: Seq<char>, k: int) -> int
    decreases k,
{
    if k <= 0 {
        0
    } else {
        times(requests, region, k - 1) + (if requests[k - 1] == region {
            1int
        } else {
            0
        })
    }
}

/// The ports that machines get: in each region, one after the other.
pub struct PortAllocator {
    pub start: u16,
    pub next: TextMap<u16>,
}

impl PortAllocator {
    pub open spec fn wf(&self) -> bool {
        self.next.wf()
    }

    /// The next port of a region.
    pub open spec fn next_port(&self, region: Seq<char>) -> int {
        if self.next@.dom().contains(region) {
            self.next@[region] as int
        } else {
            self.start as int
        }
    }

    /// The requests for ports, by region, that were answered so far.
    pub open spec fn answered(&self, requests: Seq<Seq<char>>) -> bool {
        forall|region: Seq<char>| #[trigger]
            self.next_port(region) == self.start + times(
                requests,
                region,
                requests.len() as int,
            )
    }

    /// No port was given yet.
    pub fn new(settings: &Settings) -> (r: Self)
        ensures
            r.wf(),
            r.start == settings.ssh_start_port,
            r.answered(Seq::empty()),
            r.served(*settings, Seq::empty()),
    {
        PortAllocator { start: settings.ssh_start_port, next: TextMap::new() }
    }

    /// Gives the next port of a region.
    pub fn allocate(&mut self, region: &str) -> (r: u16)
        requires
            old(self).wf(),
            old(self).next_port(region@) < 65535,
        ensures
            final(self).wf(),
            final(self).start == old(self).start,
            r == old(self).next_port(region@),
            final(self).next_port(region@) == r + 1,
            forall|other: Seq<char>|
                other != region@ ==> #[trigger] final(self).next_port(other)
                    == old(self).next_port(other),
            forall|requests: Seq<Seq<char>>| #[trigger]
                old(self).answered(requests) ==> r == given(
                    old(self).start,
                    requests.push(region@),
                    requests.len() as int,
                ) && final(self).answered(requests.push(region@)),
    {
        let ghost before = *self;
        let port: u16 = match self.next.get(region) {
            Some(p) => *p,
            None => self.start,
        };
        self.next.insert(region, port + 1);
        proof {
            assert forall|requests: Seq<Seq<char>>| #[trigger]
                before.answered(requests) implies port == given(
                before.start,
                requests.push(region@),
                requests.len() as int,
            ) && self.answered(requests.push(region@)) by {
                let more = requests.push(region@);
                let n = requests.len() as int;
                assert forall|q: Seq<char>| #[trigger]
                    self.next_port(q) == self.start + times(more, q, n + 1) by {
                    lemma_times(requests, more, q, n);
                    assert(before.next_port(q) == before.start + times(requests, q, n));
                }
                lemma_times(requests, more, region@, n);
                assert(before.next_port(region@) == before.start + times(requests, region@, n));
            }
        }
        port
    }

    /// The requests for machines that were made so far, some of them in regions that
    /// are not the testbed's: those got no port.
    pub open spec fn served(&self, settings: Settings, requests: Seq<Seq<char>>) -> bool {
        forall|region: Seq<char>| #[trigger]
            self.next_port(region) == self.start + (if settings.has_region(region) {
                times(requests, region, requests.len() as int)
            } else {
                0
            })
    }

    /// Gives a machine in a region its port. In a region that is not the testbed's
    /// the request is refused, and no port is used up.
    pub fn assign(&mut self, settings: &Settings, region: &str) -> (r: Result<
        u16,
        CloudProviderError,
    >)
        requires
            old(self).wf(),
            settings.has_region(region@) ==> old(self).next_port(region@) < 65535,
        ensures
            final(self).wf(),
            final(self).start == old(self).start,
            r is Ok == settings.has_region(region@),
            r matches Ok(port) ==> {
                &&& port == old(self).next_port(region@)
                &&& final(self).next_port(region@) == port + 1
                &&& forall|other: Seq<char>|
                    other != region@ ==> #[trigger] final(self).next_port(other)
                        == old(self).next_port(other)
            },
            r matches Err(e) ==> {
                &&& e matches CloudProviderError::RequestError(m) && m@ == "Undefined region "@
                    + quoted(region@)
                &&& *final(self) == *old(self)
            },
            forall|requests: Seq<Seq<char>>| #[trigger]
                old(self).served(*settings, requests) ==> final(self).served(
                    *settings,
                    requests.push(region@),
                ) && (r matches Ok(port) ==> port == given(
                    old(self).start,
                    requests.push(region@),
                    requests.len() as int,
                )),
    {
        let ghost before = *self;
        let r = if settings.get_region_config(region).is_some() {
            Ok(self.allocate(region))
        } else {
            let mut message = text("Undefined region ");
            message.append(quote(region).as_str());
            Err(CloudProviderError::RequestError(message))
        };
        proof {
            assert forall|requests: Seq<Seq<char>>| #[trigger]
                before.served(*settings, requests) implies self.served(
                *settings,
                requests.push(region@),
            ) && (r matches Ok(port) ==> port == given(
                before.start,
                requests.push(region@),
                requests.len() as int,
            )) by {
                let more = requests.push(region@);
                let n = requests.len() as int;
                assert forall|q: Seq<char>| #[trigger]
                    self.next_port(q) == self.start + (if settings.has_region(q) {
                        times(more, q, n + 1)
                    } else {
                        0
                    }) by {
                    lemma_times(requests, more, q, n);
                    assert(before.next_port(q) == before.start + (if settings.has_region(q) {
                        times(requests, q, n)
                    } else {
                        0
                    }));
                }
                lemma_times(requests, more, region@, n);
                assert(before.next_port(region@) == before.start + (if settings.has_region(
                    region@,
                ) {
                    times(requests, region@, n)
                } else {
                    0
                }));
            }
        }
        r
    }
}

proof fn lemma_times(a: Seq<Seq<char>>, b: Seq<Seq<char>>, region: Seq<char>, k: int)
    requires
        k <= a.len(),
        k <= b.len(),
        forall|i: int| 0 <= i < k ==> a[i] == b[i],
    ensures
        times(a, region, k) == times(b, region, k),
    decreases k,
{
    if k > 0 {
        lemma_times(a, b, region, k - 1);
    }
}

/// The port that the request at `i` gets.
pub open spec fn given(start: u16, requests: Seq<Seq<char>>, i: int) -> int {
    start + times(requests, requests[i], i)
}

proof fn lemma_times_grow(requests: Seq<Seq<char>>, region: Seq<char>, i: int, j: int)
    requires
        0 <= i <= j,
    ensures
        times(requests, region, i) <= times(requests, region, j),
    decreases j,
{
    if i < j {
        lemma_times_grow(requests, region, i, j - 1);
    }
}

/// No two machines of a region get the same port.
pub proof fn law_ports_are_unique(start: u16, requests: Seq<Seq<char>>, i: int, j: int)
    requires
        0 <= i < j < requests.len(),
        requests[i] == requests[j],
    ensures
        given(start, requests, i) < given(start, requests, j),
{
    lemma_times_grow(requests, requests[i], i + 1, j);
}

/// What the provider says of the state of a machine.
#[derive(Debug)]
pub enum InstanceState {
    Pending,
    Running,
    /// Any other state, by its name.
    Other(String),
}

/// What to do about a machine that is to run.
#[derive(Debug)]
pub enum Waiting {
    /// It runs, in this network.
    Ready(String),
    /// Ask again after so many seconds.
    Again(u64),
    Failed(CloudProviderError),
}

/// The answer to what the provider says of a machine that is to run: whether
/// there is one, its state, and the network that it is in.
pub fn on_instance_state(
    instance_id: &str,
    found: bool,
    state: Option<InstanceState>,
    vpc_id: Option<String>,
) -> (r: Waiting)
    requires
        found && state == Some(InstanceState::Running) ==> vpc_id is Some,
    ensures
        !found ==> (r matches Waiting::Failed(CloudProviderError::UnexpectedResponse(m)) && m@
            == "Instance "@ + instance_id@ + " not found after creation"@),
        found && state is None ==> (r matches Waiting::Failed(
            CloudProviderError::UnexpectedResponse(m),
        ) && m@ == "Instance "@ + instance_id@ + " has no state"@),
        found ==> match state {
            Some(InstanceState::Running) => r matches Waiting::Ready(v) && v@ == vpc_id->0@,
            Some(InstanceState::Pending) => r == Waiting::Again(PAUSE),
            Some(InstanceState::Other(name)) => r matches Waiting::Failed(
                CloudProviderError::UnexpectedResponse(m),
            ) && m@ == "Instance "@ + instance_id@ + " entered unexpected state: "@ + name@,
            None => true,
        },
{
    let mut message = text("Instance ");
    message.append(instance_id);
    if !found {
        message.append(" not found after creation");
        return Waiting::Failed(CloudProviderError::UnexpectedResponse(message));
    }
    match state {
        None => {
            message.append(" has no state");
            Waiting::Failed(CloudProviderError::UnexpectedResponse(message))
        },
        Some(InstanceState::Running) => Waiting::Ready(vpc_id.unwrap()),
        Some(InstanceState::Pending) => Waiting::Again(PAUSE),
        Some(InstanceState::Other(name)) => {
            message.append(" entered unexpected state: ");
            message.append(name.as_str());
            Waiting::Failed(CloudProviderError::UnexpectedResponse(message))
        },
    }
}

/// What the provider says of a target of the load balancer.
#[derive(Clone, Copy, Debug, PartialEq, Eq, Structural)]
pub enum TargetHealth {
    /// There is no description yet.
    NotDescribed,
    Healthy,
    /// Described, but not as healthy.
    Other,
}

/// How many seconds to wait before asking for the health of a target again;
/// nothing where it is healthy.
pub fn on_target_health(health: TargetHealth) -> (r: Option<u64>)
    ensures
        r == (match health {
            TargetHealth::Healthy => None,
            TargetHealth::NotDescribed => Some(0u64),
            TargetHealth::Other => Some(PAUSE),
        }),
{
    match health {
        TargetHealth::Healthy => None,
        TargetHealth::NotDescribed => Some(0),
        TargetHealth::Other => Some(PAUSE),
    }
}

/// The name of the group of a port.
pub open spec fn group_name(region: Seq<char>, port: u16) -> Seq<char> {
    "mysticeti-tg-"@ + region + "-"@ + decimal::decimal(port as nat)
}

/// The name of the group of a port.
pub fn target_group_name(region: &str, port: u16) -> (r: String)
    ensures
        r@ == group_name(region@, port),
{
    let mut s = text("mysticeti-tg-");
    s.append(region);
    s.append("-");
    push_decimal(&mut s, port as u64);
    s
}

/// The steps in which a machine is provisioned, in their order.
#[derive(Clone, Copy, Debug, PartialEq, Eq, Structural)]
pub enum Stage {
    CreateSecurityGroup,
    FindImage,
    RunInstance,
    AwaitRunning,
    CreateTargetGroup,
    RegisterTarget,
    CreateListener,
    AwaitHealthy,
    Describe,
    Done,
}

/// The step after a step.
pub open spec fn stage_after(s: Stage) -> Stage {
    match s {
        Stage::CreateSecurityGroup => Stage::FindImage,
        Stage::FindImage => Stage::RunInstance,
        Stage::RunInstance => Stage::AwaitRunning,
        Stage::AwaitRunning => Stage::CreateTargetGroup,
        Stage::CreateTargetGroup => Stage::RegisterTarget,
        Stage::RegisterTarget => Stage::CreateListener,
        Stage::CreateListener => Stage::AwaitHealthy,
        Stage::AwaitHealthy => Stage::Describe,
        Stage::Describe => Stage::Done,
        Stage::Done => Stage::Done,
    }
}

/// A machine on its way: how far it is, and the names that the provider gave.
#[derive(Debug)]
pub struct Provisioning {
    pub region: String,
    pub port: u16,
    pub stage: Stage,
    pub image: String,
    pub instance: String,
    pub network: String,
    pub group: String,
    pub listener: String,
}

/// A machine on its way, by its contents.
#[verifier::ext_equal]
pub struct ProvisioningView {
    pub region: Seq<char>,
    pub port: u16,
    pub stage: Stage,
    pub image: Seq<char>,
    pub instance: Seq<char>,
    pub network: Seq<char>,
    pub group: Seq<char>,
    pub listener: Seq<char>,
}

impl View for Provisioning {
    type V = ProvisioningView;

    open spec fn view(&self) -> ProvisioningView {
        ProvisioningView {
            region: self.region@,
            port: self.port,
            stage: self.stage,
            image: self.image@,
            instance: self.instance@,
            network: self.network@,
            group: self.group@,
            listener: self.listener@,
        }
    }
}

/// A machine on its way after a step, whose answer was a name or nothing worth
/// keeping.
pub open spec fn advanced(v: ProvisioningView, answer: Seq<char>) -> ProvisioningView {
    let next = ProvisioningView { stage: stage_after(v.stage), ..v };
    match v.stage {
        Stage::FindImage => ProvisioningView { image: answer, ..next },
        Stage::RunInstance => ProvisioningView { instance: answer, ..next },
        Stage::AwaitRunning => ProvisioningView { network: answer, ..next },
        Stage::CreateTargetGroup => ProvisioningView { group: answer, ..next },
        Stage::CreateListener => ProvisioningView { listener: answer, ..next },
        _ => next,
    }
}

/// A machine on its way after the first `k` answers.
pub open spec fn advanced_by(
    v: ProvisioningView,
    answers: Seq<Seq<char>>,
    k: int,
) -> ProvisioningView
    decreases k,
{
    if k <= 0 {
        v
    } else {
        advanced(advanced_by(v, answers, k - 1), answers[k - 1])
    }
}

impl Provisioning {
    /// Nothing was asked of the provider yet.
    pub fn new(region: &str, port: u16) -> (r: Self)
        ensures
            r@ == at_start(region@, port),
    {
        let r = Provisioning {
            region: text(region),
            port,
            stage: Stage::CreateSecurityGroup,
            image: text(""),
            instance: text(""),
            network: text(""),
            group: text(""),
            listener: text(""),
        };
        r
    }

    /// Takes the answer to the step, and goes on to the next one.
    pub fn advance(&mut self, answer: String)
        requires
            !(old(self).stage is Done),
        ensures
            final(self)@ == advanced(old(self)@, answer@),
    {
        match self.stage {
            Stage::CreateSecurityGroup => {
                self.stage = Stage::FindImage;
            },
            Stage::FindImage => {
                self.image = answer;
                self.stage = Stage::RunInstance;
            },
            Stage::RunInstance => {
                self.instance = answer;
                self.stage = Stage::AwaitRunning;
            },
            Stage::AwaitRunning => {
                self.network = answer;
                self.stage = Stage::CreateTargetGroup;
            },
            Stage::CreateTargetGroup => {
                self.group = answer;
                self.stage = Stage::RegisterTarget;
            },
            Stage::RegisterTarget => {
                self.stage = Stage::CreateListener;
            },
            Stage::CreateListener => {
                self.listener = answer;
                self.stage = Stage::AwaitHealthy;
            },
            Stage::AwaitHealthy => {
                self.stage = Stage::Describe;
            },
            Stage::Describe => {
                self.stage = Stage::Done;
            },
            Stage::Done => {},
        }
    }

    /// The machine, once it is provisioned.
    pub fn finish(&self, settings: &Settings, machine: &Machine) -> (r: Option<Instance>)
        ensures
            r is Some <==> self.stage is Done && settings.has_region(self.region@),
            r matches Some(x) ==> x@ == reachable(
                *settings,
                self.region@,
                *machine,
                (self.port, self.group@, self.listener@),
            ),
    {
        if self.stage == Stage::Done && settings.get_region_config(self.region.as_str()).is_some() {
            Some(
                make_instance(
                    settings,
                    self.region.as_str(),
                    machine,
                    self.port,
                    self.group.as_str(),
                    self.listener.as_str(),
                ),
            )
        } else {
            None
        }
    }
}

/// A machine that nothing was asked for yet.
pub open spec fn at_start(region: Seq<char>, port: u16) -> ProvisioningView {
    ProvisioningView {
        region,
        port,
        stage: Stage::CreateSecurityGroup,
        image: ""@,
        instance: ""@,
        network: ""@,
        group: ""@,
        listener: ""@,
    }
}

/// A machine is provisioned after nine answers, no sooner, and then has the port
/// that it was given and the names that the provider answered with.
pub proof fn law_provisioning_completes(region: Seq<char>, port: u16, answers: Seq<Seq<char>>)
    requires
        answers.len() == 9,
    ensures
        advanced_by(at_start(region, port), answers, 9) == (ProvisioningView {
            region,
            port,
            stage: Stage::Done,
            image: answers[1],
            instance: answers[2],
            network: answers[3],
            group: answers[4],
            listener: answers[6],
        }),
        forall|k: int|
            0 <= k < 9 ==> !((#[trigger] advanced_by(at_start(region, port), answers, k)).stage is Done),
{
    reveal_with_fuel(advanced_by, 10);
    assert forall|k: int| 0 <= k < 9 implies !((#[trigger] advanced_by(
        at_start(region, port),
        answers,
        k,
    )).stage is Done) by {
        if k == 0 {
        } else if k == 1 {
        } else if k == 2 {
        } else if k == 3 {
        } else if k == 4 {
        } else if k == 5 {
        } else if k == 6 {
        } else if k == 7 {
        } else {
            assert(k == 8);
        }
    }
}

/// The steps in which a machine is deleted, in their order.
#[derive(Clone, Copy, Debug, PartialEq, Eq, Structural)]
pub enum Deletion {
    DeleteListener,
    DeleteTargetGroup,
    Terminate,
    Done,
}

/// What follows a step of a deletion: the next step, after so many seconds, or
/// the failure of the step. Only the end of the machine itself has to succeed.
pub fn after_deletion(step: Deletion, succeeded: bool) -> (r: Option<(Deletion, u64)>)
    ensures
        r == (match step {
            Deletion::DeleteListener => Some(
                (
                    Deletion::DeleteTargetGroup,
                    if succeeded {
                        PAUSE
                    } else {
                        0
                    },
                ),
            ),
            Deletion::DeleteTargetGroup => Some((Deletion::Terminate, 0u64)),
            Deletion::Terminate => if succeeded {
                Some((Deletion::Done, 0u64))
            } else {
                None
            },
            Deletion::Done => Some((Deletion::Done, 0u64)),
        }),
{
    match step {
        Deletion::DeleteListener => {
            if succeeded {
                Some((Deletion::DeleteTargetGroup, PAUSE))
            } else {
                Some((Deletion::DeleteTargetGroup, 0))
            }
        },
        Deletion::DeleteTargetGroup => Some((Deletion::Terminate, 0)),
        Deletion::Terminate => {
            if succeeded {
                Some((Deletion::Done, 0))
            } else {
                None
            }
        },
        Deletion::Done => Some((Deletion::Done, 0)),
    }
}

/// The ports of groups are those of the listeners that forward to the testbed: the ones
/// with a port, from the first that machines get on, a group and a name. Of two listeners
/// of one group the later counts.
pub proof fn law_listeners_give_the_ports(
    settings: Settings,
    listeners: Seq<Listener>,
    next: Listener,
    group: Seq<char>,
)
    ensures
        ({
            let n = listeners.len() as int;
            let before = listeners_of(settings, listeners, n);
            let after = listeners_of(settings, listeners.push(next), n + 1);
            let counts = next.port is Some && next.target_group is Some && next.arn is Some
                && next.port->0 >= settings.ssh_start_port;
            &&& counts && group == next.target_group->0@ ==> {
                &&& after.dom().contains(group)
                &&& after[group].1 == next.arn->0@
                &&& next.port->0 <= 65535 ==> after[group].0 == next.port->0
            }
            &&& !counts || group != next.target_group->0@ ==> {
                &&& after.dom().contains(group) == before.dom().contains(group)
                &&& before.dom().contains(group) ==> after[group] == before[group]
            }
            &&& listeners_of(settings, Seq::empty(), 0).dom() =~= Set::empty()
        }),
{
    let all = listeners.push(next);
    let n = listeners.len() as int;
    lemma_listeners_prefix(settings, listeners, next, n);
    assert(all[n] == next);
}

proof fn lemma_listeners_prefix(
    settings: Settings,
    listeners: Seq<Listener>,
    next: Listener,
    k: int,
)
    requires
        0 <= k <= listeners.len(),
    ensures
        listeners_of(settings, listeners.push(next), k) == listeners_of(settings, listeners, k),
    decreases k,
{
    if k > 0 {
        lemma_listeners_prefix(settings, listeners, next, k - 1);
        assert(listeners.push(next)[k - 1] == listeners[k - 1]);
    }
}

proof fn lemma_routes_prefix(replies: Seq<TargetReply>, next: TargetReply, k: int)
    requires
        0 <= k <= replies.len(),
    ensures
        routes_of(replies.push(next), k) == routes_of(replies, k),
    decreases k,
{
    if k > 0 {
        lemma_routes_prefix(replies, next, k - 1);
        assert(replies.push(next)[k - 1] == replies[k - 1]);
    }
}

/// A machine is reached as the last reply that names it says, and a reply that names none
/// changes nothing.
pub proof fn law_replies_give_the_routes(
    replies: Seq<TargetReply>,
    next: TargetReply,
    machine: Seq<char>,
)
    ensures
        ({
            let n = replies.len() as int;
            let before = routes_of(replies, n);
            let after = routes_of(replies.push(next), n + 1);
            let named = next.target is Some && next.target->0@ == machine;
            &&& named ==> {
                &&& after.dom().contains(machine)
                &&& after[machine].0 == next.port
                &&& after[machine].1 == next.target_group@
                &&& after[machine].2 == next.listener@
            }
            &&& !named ==> {
                &&& after.dom().contains(machine) == before.dom().contains(machine)
                &&& before.dom().contains(machine) ==> after[machine] == before[machine]
            }
            &&& routes_of(Seq::empty(), 0).dom() =~= Set::empty()
        }),
{
    lemma_routes_prefix(replies, next, replies.len() as int);
    assert(replies.push(next)[replies.len() as int] == next);
}

proof fn lemma_listed_split(
    settings: Settings,
    region: Seq<char>,
    routes: Map<Seq<char>, (u16, Seq<char>, Seq<char>)>,
    a: Seq<Machine>,
    b: Seq<Machine>,
    k: int,
)
    requires
        0 <= k <= a.len() + b.len(),
    ensures
        k <= a.len() ==> listed(settings, region, routes, a + b, k) == listed(
            settings,
            region,
            routes,
            a,
            k,
        ),
        k >= a.len() ==> listed(settings, region, routes, a + b, k) == listed(
            settings,
            region,
            routes,
            a,
            a.len() as int,
        ) + listed(settings, region, routes, b, k - a.len()),
    decreases k,
{
    if k > 0 {
        lemma_listed_split(settings, region, routes, a, b, k - 1);
        if k <= a.len() {
            assert((a + b)[k - 1] == a[k - 1]);
        } else {
            let m = b[k - 1 - a.len()];
            assert((a + b)[k - 1] == m);
            let x = listed(settings, region, routes, a, a.len() as int);
            let y = listed(settings, region, routes, b, k - 1 - a.len());
            let p = reachable(settings, region, m, routes[m.id@]);
            let q = unreachable_machine(settings, region, m);
            assert((x + y).push(p) =~= x + y.push(p));
            assert((x + y).push(q) =~= x + y.push(q));
        }
    }
    if k == a.len() {
        assert(listed(settings, region, routes, a, k) + listed(settings, region, routes, b, 0)
            =~= listed(settings, region, routes, a, k));
    }
}

/// Machines are listed one after the other: one that has a route with its port and groups,
/// one that has none and is not gone without a port, and one that has none and is gone not
/// at all.
pub proof fn law_machines_are_listed(
    settings: Settings,
    region: Seq<char>,
    routes: Map<Seq<char>, (u16, Seq<char>, Seq<char>)>,
    a: Seq<Machine>,
    b: Seq<Machine>,
    m: Machine,
)
    ensures
        listed(settings, region, routes, a + b, (a + b).len() as int) == listed(
            settings,
            region,
            routes,
            a,
            a.len() as int,
        ) + listed(settings, region, routes, b, b.len() as int),
        ({
            let one = listed(settings, region, routes, seq![m], 1);
            let routed = routes.dom().contains(m.id@);
            &&& !routed && m.status is Terminated ==> one.len() == 0
            &&& routed || !(m.status is Terminated) ==> {
                &&& one.len() == 1
                &&& one[0].id == m.id@
                &&& one[0].region == region
                &&& one[0].status == m.status
                &&& one[0].specs == m.specs@
                &&& m.public_ip matches Some(ip) ==> one[0].main_ip == ip
            }
            &&& routed ==> {
                &&& one[0].ssh_port == routes[m.id@].0
                &&& one[0].nlb_target_group_arn == routes[m.id@].1
                &&& one[0].nlb_listener_arn == routes[m.id@].2
                &&& one[0].ssh_host == settings.config_of(region).aga_dns_name@
            }
            &&& !routed && !(m.status is Terminated) ==> one[0].ssh_port == 0
        }),
{
    lemma_listed_split(settings, region, routes, a, b, (a + b).len() as int);
    let s = seq![m];
    assert(listed(settings, region, routes, s, 0).len() == 0);
    assert(s[0] == m);
    assert(listed(settings, region, routes, s, 1) == if routes.dom().contains(s[0].id@) {
        listed(settings, region, routes, s, 0).push(
            reachable(settings, region, s[0], routes[s[0].id@]),
        )
    } else if !(s[0].status is Terminated) {
        listed(settings, region, routes, s, 0).push(unreachable_machine(settings, region, s[0]))
    } else {
        listed(settings, region, routes, s, 0)
    });
}

proof fn lemma_ids_split(a: Seq<Instance>, b: Seq<Instance>, region: Seq<char>, k: int)
    requires
        0 <= k <= a.len() + b.len(),
    ensures
        k <= a.len() ==> ids_in(a + b, region, k) == ids_in(a, region, k),
        k >= a.len() ==> ids_in(a + b, region, k) == ids_in(a, region, a.len() as int) + ids_in(
            b,
            region,
            k - a.len(),
        ),
    decreases k,
{
    if k > 0 {
        lemma_ids_split(a, b, region, k - 1);
        if k <= a.len() {
            assert((a + b)[k - 1] == a[k - 1]);
        } else {
            let m = b[k - 1 - a.len()];
            assert((a + b)[k - 1] == m);
            let x = ids_in(a, region, a.len() as int);
            let y = ids_in(b, region, k - 1 - a.len());
            assert((x + y).push(m.id@) =~= x + y.push(m.id@));
        }
    }
    if k == a.len() {
        assert(ids_in(a, region, k) + ids_in(b, region, 0) =~= ids_in(a, region, k));
    }
}

/// The machines of a region are named in their order, each once and no others.
pub proof fn law_machines_of_a_region(
    a: Seq<Instance>,
    b: Seq<Instance>,
    m: Instance,
    region: Seq<char>,
)
    ensures
        ids_in(a + b, region, (a + b).len() as int) == ids_in(a, region, a.len() as int) + ids_in(
            b,
            region,
            b.len() as int,
        ),
        m.region@ == region ==> ids_in(seq![m], region, 1) =~= seq![m.id@],
        m.region@ != region ==> ids_in(seq![m], region, 1).len() == 0,
{
    lemma_ids_split(a, b, region, (a + b).len() as int);
    let s = seq![m];
    assert(ids_in(s, region, 0).len() == 0);
    assert(s[0] == m);
    assert(ids_in(s, region, 1) == if s[0].region@ == region {
        ids_in(s, region, 0).push(s[0].id@)
    } else {
        ids_in(s, region, 0)
    });
}

/// The ports of a region are given without gaps: the first request gets the first port,
/// and each gets the one after that of the request for the region before it.
pub proof fn law_ports_follow_each_other(start: u16, requests: Seq<Seq<char>>, i: int, j: int)
    requires
        0 <= i < j < requests.len(),
        requests[i] == requests[j],
        forall|k: int| i < k < j ==> #[trigger] requests[k] != requests[i],
    ensures
        given(start, requests, j) == given(start, requests, i) + 1,
        (forall|k: int| 0 <= k < i ==> #[trigger] requests[k] != requests[i]) ==> given(
            start,
            requests,
            i,
        ) == start,
{
    lemma_times_between(requests, requests[i], i + 1, j);
    if forall|k: int| 0 <= k < i ==> #[trigger] requests[k] != requests[i] {
        lemma_times_between(requests, requests[i], 0, i);
    }
}

proof fn lemma_times_between(requests: Seq<Seq<char>>, region: Seq<char>, i: int, j: int)
    requires
        0 <= i <= j,
        forall|k: int| i <= k < j ==> #[trigger] requests[k] != region,
    ensures
        times(requests, region, i) == times(requests, region, j),
    decreases j,
{
    if i < j {
        let _ = requests[j - 1];
        lemma_times_between(requests, region, i, j - 1);
    }
}

} // verus!

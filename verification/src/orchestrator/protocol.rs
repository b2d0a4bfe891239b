//! The commands that run the protocol on the machines.
use crate::decimal;
use crate::decimal::push_decimal;
use crate::orchestrator::settings::{Instance, Settings};
use crate::text;
use crate::text::{join_path, join_texts, text};
use vstd::prelude::*;

verus! {

/// The parameters of a node that the commands depend on.
#[derive(Clone, Copy, Debug, PartialEq, Eq, Structural)]
pub struct MysticetiNodeParameters {
    pub consensus_only: bool,
}

impl MysticetiNodeParameters {
    /// The short name of the mode.
    pub fn short_name(&self) -> (r: &'static str)
        ensures
            r@ == (if self.consensus_only {
                "c"@
            } else {
                "fpc"@
            }),
    {
        if self.consensus_only {
            "c"
        } else {
            "fpc"
        }
    }

    /// The name of the mode.
    pub fn display_name(&self) -> (r: &'static str)
        ensures
            r@ == (if self.consensus_only {
                "Consensus-only mode"@
            } else {
                "FPC mode"@
            }),
    {
        if self.consensus_only {
            "Consensus-only mode"
        } else {
            "FPC mode"
        }
    }
}

/// The parameters of a client that the commands depend on.
#[derive(Clone, Copy, Debug, PartialEq, Eq, Structural)]
pub struct MysticetiClientParameters {
    pub load: usize,
    pub transaction_size: usize,
}

impl MysticetiClientParameters {
    /// The short description: the size of a transaction.
    pub fn short_name(&self) -> (r: String)
        ensures
            r@ == decimal::decimal(self.transaction_size as nat),
    {
        decimal::decimal_text(self.transaction_size as u64)
    }

    /// The description: the size of a transaction, in bytes.
    pub fn display_name(&self) -> (r: String)
        ensures
            r@ == decimal::decimal(self.transaction_size as nat) + "B tx"@,
    {
        let mut s = decimal::decimal_text(self.transaction_size as u64);
        s.append("B tx");
        s
    }

    /// The parameters of one of `nodes` clients that share a load.
    pub fn share_of(&self, load: usize, nodes: usize) -> (r: Self)
        requires
            nodes > 0,
        ensures
            r == (MysticetiClientParameters { load: (load / nodes) as usize, ..*self }),
    {
        MysticetiClientParameters { load: load / nodes, transaction_size: self.transaction_size }
    }
}

/// A node that is to be faulty, and how, as text.
#[derive(Debug)]
pub struct FaultAssignment {
    pub node: usize,
    pub config: String,
}

/// The protocol, as it is run from a working directory.
#[derive(Debug)]
pub struct MysticetiProtocol {
    working_dir: String,
}

/// A command that writes a text to a file.
pub open spec fn echo_to(content: Seq<char>, path: Seq<char>) -> Seq<char> {
    "echo -e '"@ + content + "' > "@ + path
}

fn echo_command(content: &str, path: &str) -> (r: String)
    ensures
        r@ == echo_to(content@, path@),
{
    let mut s = text("echo -e '");
    s.append(content);
    s.append("' > ");
    s.append(path);
    s
}

/// The name of the file with a node's fault.
pub open spec fn fault_file(node: nat) -> Seq<char> {
    "fault-config-"@ + decimal::decimal(node) + ".yaml"@
}

fn fault_file_name(node: usize) -> (r: String)
    ensures
        r@ == fault_file(node as nat),
{
    let mut s = text("fault-config-");
    push_decimal(&mut s, node as u64);
    s.append(".yaml");
    s
}

/// The addresses of the machines, in dotted form.
pub open spec fn addresses(instances: Seq<Instance>) -> Seq<Seq<char>> {
    Seq::new(instances.len(), |i: int| instances[i].main_ip.dotted())
}

/// A node is to be faulty.
pub open spec fn is_faulty(faults: Seq<FaultAssignment>, node: int) -> bool {
    exists|i: int| 0 <= i < faults.len() && (#[trigger] faults[i]).node == node
}

fn has_fault(faults: &Vec<FaultAssignment>, node: usize) -> (b: bool)
    ensures
        b == is_faulty(faults@, node as int),
{
    let mut i: usize = 0;
    while i < faults.len()
        invariant
            i <= faults@.len(),
            forall|k: int| 0 <= k < i ==> (#[trigger] faults@[k]).node != node,
        decreases faults@.len() - i,
    {
        if faults[i].node == node {
            assert(faults@[i as int].node == node);
            return true;
        }
        i = i + 1;
    }
    false
}

impl MysticetiProtocol {
    /// The directory that the protocol is run from.
    pub closed spec fn dir(&self) -> Seq<char> {
        self.working_dir@
    }

    /// A file in the working directory.
    pub open spec fn at(&self, name: Seq<char>) -> Seq<char> {
        text::joined(self.dir(), name)
    }

    /// The protocol with the working directory of the settings.
    pub fn new(settings: &Settings) -> (r: Self)
        ensures
            r.dir() == settings.working_dir@,
    {
        MysticetiProtocol { working_dir: text(settings.working_dir.as_str()) }
    }

    fn file(&self, name: &str) -> (r: String)
        ensures
            r@ == self.at(name@),
    {
        join_path(self.working_dir.as_str(), name)
    }

    /// The commands that install what the protocol needs.
    pub fn protocol_dependencies(&self) -> (r: Vec<&'static str>)
        ensures
            r@.len() == 1,
            r@[0]@ == "sudo apt -y install libfontconfig1-dev"@,
    {
        let mut v: Vec<&'static str> = Vec::new();
        v.push("sudo apt -y install libfontconfig1-dev");
        v
    }

    /// The directories with stored data.
    pub fn db_directories(&self) -> (r: Vec<String>)
        ensures
            text::texts(r@) == seq![self.at("storage-*"@)],
    {
        let mut v: Vec<String> = Vec::new();
        v.push(self.file("storage-*"));
        assert(text::texts(v@) =~= seq![self.at("storage-*"@)]);
        v
    }

    /// The commands that write the faults of the nodes.
    pub open spec fn fault_commands(&self, faults: Seq<FaultAssignment>) -> Seq<Seq<char>> {
        Seq::new(
            faults.len(),
            |i: int| echo_to(faults[i].config@, self.at(fault_file(faults[i].node as nat))),
        )
    }

    /// The command that prepares a benchmark.
    pub open spec fn genesis(&self, ips: Seq<Seq<char>>) -> Seq<char> {
        "./target/release/mysticeti benchmark-genesis --ips "@ + text::separated(ips, " "@)
            + " --working-directory "@ + self.dir() + " --node-parameters-path "@ + self.at(
            "node-parameters.yaml"@,
        )
    }

    /// The whole preparation of a benchmark: writes the parameters and the
    /// faults, which are given as text, and prepares the nodes.
    pub fn genesis_command(
        &self,
        instances: &Vec<Instance>,
        node_parameters: &str,
        client_parameters: &str,
        faults: &Vec<FaultAssignment>,
    ) -> (r: String)
        ensures
            r@ == text::separated(
                seq![
                    "source $HOME/.cargo/env"@,
                    echo_to(node_parameters@, self.at("node-parameters.yaml"@)),
                ] + self.fault_commands(faults@) + seq![
                    echo_to(client_parameters@, self.at("client-parameters.yaml"@)),
                    self.genesis(addresses(instances@)),
                ],
                " && "@,
            ),
    {
        let mut ips: Vec<String> = Vec::new();
        let mut i: usize = 0;
        while i < instances.len()
            invariant
                i <= instances@.len(),
                text::texts(ips@) == addresses(instances@).take(i as int),
            decreases instances@.len() - i,
        {
            let ip = instances[i].main_ip.to_text();
            proof {
                text::lemma_texts_push(ips@, ip);
                let all = addresses(instances@);
                assert(all.take(i + 1) =~= all.take(i as int).push(all[i as int]));
            }
            ips.push(ip);
            i = i + 1;
        }
        assert(addresses(instances@).take(i as int) =~= addresses(instances@));
        let node_path = self.file("node-parameters.yaml");
        let client_path = self.file("client-parameters.yaml");
        let mut commands: Vec<String> = Vec::new();
        commands.push(text("source $HOME/.cargo/env"));
        commands.push(echo_command(node_parameters, node_path.as_str()));
        let ghost head = seq![
            "source $HOME/.cargo/env"@,
            echo_to(node_parameters@, self.at("node-parameters.yaml"@)),
        ];
        let ghost middle = self.fault_commands(faults@);
        assert(text::texts(commands@) =~= head + middle.take(0));
        let mut k: usize = 0;
        while k < faults.len()
            invariant
                k <= faults@.len(),
                middle == self.fault_commands(faults@),
                text::texts(commands@) == head + middle.take(k as int),
            decreases faults@.len() - k,
        {
            let name = fault_file_name(faults[k].node);
            let path = self.file(name.as_str());
            let command = echo_command(faults[k].config.as_str(), path.as_str());
            proof {
                text::lemma_texts_push(commands@, command);
                assert(middle.take(k + 1) =~= middle.take(k as int).push(middle[k as int]));
                assert(head + middle.take(k + 1) =~= (head + middle.take(k as int)).push(
                    command@,
                ));
            }
            commands.push(command);
            k = k + 1;
        }
        assert(middle.take(k as int) =~= middle);
        commands.push(echo_command(client_parameters, client_path.as_str()));
        let joined_ips = join_texts(&ips, " ");
        let mut genesis = text("./target/release/mysticeti benchmark-genesis --ips ");
        genesis.append(joined_ips.as_str());
        genesis.append(" --working-directory ");
        genesis.append(self.working_dir.as_str());
        genesis.append(" --node-parameters-path ");
        genesis.append(node_path.as_str());
        commands.push(genesis);
        let ghost tail = seq![
            echo_to(client_parameters@, self.at("client-parameters.yaml"@)),
            self.genesis(addresses(instances@)),
        ];
        assert(text::texts(commands@) =~= head + middle + tail);
        join_texts(&commands, " && ")
    }

    /// The argument that names a node's fault, where it has one.
    pub open spec fn fault_argument(&self, faults: Seq<FaultAssignment>, node: nat) -> Seq<char> {
        if is_faulty(faults, node as int) {
            "--fault-config-path "@ + self.at(fault_file(node))
        } else {
            Seq::empty()
        }
    }

    /// The command that runs a node.
    pub open spec fn run_command(&self, faults: Seq<FaultAssignment>, node: nat) -> Seq<char> {
        "source $HOME/.cargo/env && RUST_LOG=info RUST_BACKTRACE=1 ./target/release/mysticeti run --authority "@
            + decimal::decimal(node) + " --committee-path "@ + self.at("committee.yaml"@)
            + " --public-config-path "@ + self.at("public-config.yaml"@)
            + " --private-config-path "@ + self.at(
            "private-config-"@ + decimal::decimal(node) + ".yaml"@,
        ) + " --client-parameters-path "@ + self.at("client-parameters.yaml"@)
            + " --crypto-config-path "@ + self.at("crypto-config.yaml"@) + " "@
            + self.fault_argument(faults, node)
    }

    fn node_run(&self, node: usize, faults: &Vec<FaultAssignment>) -> (r: String)
        ensures
            r@ == self.run_command(faults@, node as nat),
    {
        let mut private_name = text("private-config-");
        push_decimal(&mut private_name, node as u64);
        private_name.append(".yaml");
        let committee = self.file("committee.yaml");
        let public = self.file("public-config.yaml");
        let private = self.file(private_name.as_str());
        let client = self.file("client-parameters.yaml");
        let crypto = self.file("crypto-config.yaml");
        let mut s = text(
            "source $HOME/.cargo/env && RUST_LOG=info RUST_BACKTRACE=1 ./target/release/mysticeti run --authority ",
        );
        push_decimal(&mut s, node as u64);
        s.append(" --committee-path ");
        s.append(committee.as_str());
        s.append(" --public-config-path ");
        s.append(public.as_str());
        s.append(" --private-config-path ");
        s.append(private.as_str());
        s.append(" --client-parameters-path ");
        s.append(client.as_str());
        s.append(" --crypto-config-path ");
        s.append(crypto.as_str());
        s.append(" ");
        if has_fault(faults, node) {
            let name = fault_file_name(node);
            let path = self.file(name.as_str());
            let ghost before = s@;
            s.append("--fault-config-path ");
            s.append(path.as_str());
            assert(s@ =~= before + ("--fault-config-path "@ + path@));
        } else {
            assert(s@ + Seq::<char>::empty() =~= s@);
        }
        s
    }

    /// The command that runs each of the nodes, in the order of the machines.
    pub fn node_command(&self, nodes: usize, faults: &Vec<FaultAssignment>) -> (r: Vec<String>)
        ensures
            r@.len() == nodes,
            forall|i: int|
                0 <= i < nodes ==> (#[trigger] r@[i])@ == self.run_command(faults@, i as nat),
    {
        let mut out: Vec<String> = Vec::new();
        let mut i: usize = 0;
        while i < nodes
            invariant
                i <= nodes,
                out@.len() == i,
                forall|k: int|
                    0 <= k < i ==> (#[trigger] out@[k])@ == self.run_command(faults@, k as nat),
            decreases nodes - i,
        {
            out.push(self.node_run(i, faults));
            i = i + 1;
        }
        out
    }

    /// The commands that run clients: clients run within the nodes.
    pub fn client_command(&self) -> (r: Vec<String>)
        ensures
            r@.len() == 0,
    {
        Vec::new()
    }

    /// What follows the last colon of an address.
    pub open spec fn after_last_colon(path: Seq<char>, k: int) -> Seq<char>
        decreases k,
    {
        if k <= 0 {
            path
        } else if path[k - 1] == ':' {
            path.subrange(k, path.len() as int)
        } else {
            Self::after_last_colon(path, k - 1)
        }
    }

    /// The command that collects the metrics of a node, at the port and route
    /// of an address, and those of its machine.
    pub fn metrics_command(path: &str) -> (r: String)
        ensures
            r@ == "curl -s http://127.0.0.1:"@ + Self::after_last_colon(path@, path@.len() as int)
                + " && curl -s http://localhost:9200/metrics"@,
    {
        let n: usize = path.unicode_len();
        let mut k: usize = n;
        while k > 0 && path.get_char(k - 1) != ':'
            invariant
                k <= n,
                n == path@.len(),
                Self::after_last_colon(path@, n as int) == Self::after_last_colon(path@, k as int),
            decreases k,
        {
            k = k - 1;
        }
        let mut s = text("curl -s http://127.0.0.1:");
        if k > 0 {
            s.append(path.substring_char(k, n));
        } else {
            s.append(path);
        }
        s.append(" && curl -s http://localhost:9200/metrics");
        s
    }
}

/// What follows the last colon of a path holds none, and is the whole path where there is
/// none.
pub proof fn law_route_follows_the_last_colon(path: Seq<char>, k: int)
    requires
        0 <= k <= path.len(),
        forall|i: int| k <= i < path.len() ==> #[trigger] path[i] != ':',
    ensures
        ({
            let rest = MysticetiProtocol::after_last_colon(path, k);
            &&& forall|i: int| 0 <= i < rest.len() ==> #[trigger] rest[i] != ':'
            &&& rest == path || exists|at: int|
                {
                    &&& 0 < at <= path.len()
                    &&& path[at - 1] == ':'
                    &&& rest == #[trigger] path.subrange(at, path.len() as int)
                }
        }),
    decreases k,
{
    if k > 0 {
        if path[k - 1] != ':' {
            law_route_follows_the_last_colon(path, k - 1);
        } else {
            assert(path.subrange(k, path.len() as int) == MysticetiProtocol::after_last_colon(
                path,
                k,
            ));
        }
    }
}

/// A node is given a fault exactly where one of the faults is its own.
pub proof fn law_faulty_nodes_are_told(
    protocol: MysticetiProtocol,
    faults: Seq<FaultAssignment>,
    next: FaultAssignment,
    node: nat,
)
    ensures
        is_faulty(faults.push(next), node as int) <==> is_faulty(faults, node as int) || next.node
            == node,
        !is_faulty(Seq::empty(), node as int),
        !is_faulty(faults, node as int) ==> protocol.fault_argument(faults, node).len() == 0,
{
    let all = faults.push(next);
    if is_faulty(faults, node as int) {
        let i = choose|i: int| 0 <= i < faults.len() && (#[trigger] faults[i]).node == node;
        assert(all[i].node == node);
    }
    if next.node == node {
        assert(all[faults.len() as int].node == node);
    }
    if is_faulty(all, node as int) && next.node != node {
        let i = choose|i: int| 0 <= i < all.len() && (#[trigger] all[i]).node == node;
        assert(faults[i].node == node);
    }
}

} // verus!

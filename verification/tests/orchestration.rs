use mysticeti_vote::keymap::KeyMap;
use mysticeti_vote::orchestrator::aws::{
    after_deletion, image_id, ids_by_region, ingress_rules, instance_setup_commands, is_duplicate,
    list_region, make_instance, map_listeners, map_targets, names_duplicate, on_instance_state,
    on_target_health, os_image, target_group_name, username, CloudProviderError, Deletion,
    InstanceState, Listener, Machine, PortAllocator, Provisioning, Stage, TargetHealth,
    TargetReply, Waiting, DEFAULT_EBS_SIZE_GB, PAUSE,
};
use mysticeti_vote::orchestrator::measurements::{
    HistogramSummary, Measurement, MeasurementsCollection, Metric, ProtocolMetrics,
};
use mysticeti_vote::orchestrator::number::{to_nanos, to_whole};
use mysticeti_vote::orchestrator::protocol::{
    FaultAssignment, MysticetiClientParameters, MysticetiNodeParameters, MysticetiProtocol,
};
use mysticeti_vote::orchestrator::settings::{
    Instance, InstanceStatus, Ipv4, RegionConfig, Settings,
};
use mysticeti_vote::orchestrator::ssh::{
    all_have_status, judge_exit, kill_command, list_sessions_command, CommandContext,
    CommandStatus, SshConnectionManager, DEFAULT_TIMEOUT_MILLIS,
};
use mysticeti_vote::orchestrator::testbed::{StatusRow, Testbed, TestbedError};
use mysticeti_vote::text::text_before;

fn settings() -> Settings {
    let region = |name: &str| RegionConfig {
        name: name.into(),
        aga_dns_name: format!("{name}.aga.example"),
        nlb_arn: format!("nlb:{name}"),
    };
    Settings {
        testbed_id: "bed".into(),
        regions: vec![region("us-east-1"), region("eu-west-2")],
        specs: "m5d.8xlarge".into(),
        working_dir: "/home/ubuntu/working_dir".into(),
        ssh_private_key_file: "/keys/id".into(),
        ssh_start_port: 9000,
        nvme: true,
    }
}

fn instance(id: &str, region: &str, specs: &str, status: InstanceStatus) -> Instance {
    Instance {
        id: id.into(),
        region: region.into(),
        main_ip: Ipv4 { a: 10, b: 0, c: 0, d: 255 },
        tags: vec!["bed".into()],
        specs: specs.into(),
        status,
        ssh_host: "host".into(),
        ssh_port: 9000,
        nlb_target_group_arn: "tg".into(),
        nlb_listener_arn: "l".into(),
    }
}

#[test]
fn contexts_nest() {
    let plain = CommandContext::new();
    assert_eq!(plain.apply("ls"), "ls");
    let full = CommandContext::new()
        .run_background("node-0".into())
        .with_execute_from_path("/repo".into())
        .with_log_file("/log".into());
    assert_eq!(
        full.apply("run"),
        "(cd /repo && tmux new -d -s \"node-0\" \"run |& tee /log\")"
    );
}

#[test]
fn sessions_have_a_status() {
    assert_eq!(CommandStatus::status("node-0", "node-0: 1 windows"), CommandStatus::Running);
    assert_eq!(CommandStatus::status("node-1", "node-0: 1 windows"), CommandStatus::Terminated);
    let outputs = vec!["a: 1".to_string(), "b: 1".to_string()];
    assert!(!all_have_status(&outputs, "a", CommandStatus::Running));
    assert!(all_have_status(&outputs, "c", CommandStatus::Terminated));
    assert_eq!(list_sessions_command(), "(tmux ls || true)");
    assert_eq!(kill_command("x"), "(tmux kill-session -t x || true)");
}

#[test]
fn connections_are_repeated() {
    let manager = SshConnectionManager::new("ubuntu".into(), "/keys/id".into());
    assert_eq!(manager.session_timeout() as u64, DEFAULT_TIMEOUT_MILLIS);
    assert!(manager.tries_again(0));
    assert!(!manager.tries_again(1));
    let manager = manager.with_retries(2).with_timeout(0x1_0000_0005);
    assert!(manager.tries_again(2));
    assert!(!manager.tries_again(3));
    assert_eq!(manager.session_timeout(), 5);
    assert_eq!(judge_exit("10.0.0.1:22", "a".into(), "b".into(), 0).unwrap(), ("a".to_string(), "b".to_string()));
    let e = judge_exit("10.0.0.1:22", "a".into(), "b".into(), 3).unwrap_err();
    assert_eq!(e.address, "10.0.0.1:22");
    assert_eq!((e.code, e.message.as_str()), (3, "b"));
}

#[test]
fn commands_of_the_protocol() {
    let protocol = MysticetiProtocol::new(&settings());
    assert_eq!(protocol.protocol_dependencies(), vec!["sudo apt -y install libfontconfig1-dev"]);
    assert_eq!(protocol.db_directories(), vec!["/home/ubuntu/working_dir/storage-*"]);
    assert!(protocol.client_command().is_empty());
    let machines = vec![
        instance("i-1", "us-east-1", "m5d", InstanceStatus::Active),
        instance("i-2", "us-east-1", "m5d", InstanceStatus::Active),
    ];
    let faults = vec![FaultAssignment { node: 1, config: "f".into() }];
    let dir = "/home/ubuntu/working_dir";
    assert_eq!(
        protocol.genesis_command(&machines, "np", "cp", &faults),
        format!(
            "source $HOME/.cargo/env && echo -e 'np' > {dir}/node-parameters.yaml && \
             echo -e 'f' > {dir}/fault-config-1.yaml && \
             echo -e 'cp' > {dir}/client-parameters.yaml && \
             ./target/release/mysticeti benchmark-genesis --ips 10.0.0.255 10.0.0.255 \
             --working-directory {dir} --node-parameters-path {dir}/node-parameters.yaml"
        )
    );
    let runs = protocol.node_command(2, &faults);
    assert_eq!(runs.len(), 2);
    assert!(runs[0].contains("--authority 0 --committee-path /home/ubuntu/working_dir/committee.yaml"));
    assert!(!runs[0].contains("fault-config"));
    assert!(runs[1].contains("/home/ubuntu/working_dir/fault-config-1.yaml"));
    assert_eq!(
        MysticetiProtocol::metrics_command("1.2.3.4:1500/metrics"),
        "curl -s http://127.0.0.1:1500/metrics && curl -s http://localhost:9200/metrics"
    );
    let client = MysticetiClientParameters { load: 100, transaction_size: 512 };
    assert_eq!(client.display_name(), "512B tx");
    assert_eq!(client.short_name(), "512");
    assert_eq!(client.share_of(101, 4).load, 25);
    assert_eq!(MysticetiNodeParameters { consensus_only: true }.short_name(), "c");
    assert_eq!(MysticetiNodeParameters { consensus_only: false }.display_name(), "FPC mode");
}

fn testbed() -> Testbed {
    Testbed {
        username: "ubuntu".into(),
        settings: settings(),
        instances: vec![
            instance("a", "us-east-1", "M5d8xlarge", InstanceStatus::Inactive),
            instance("b", "us-east-1", "m5d.8xlarge", InstanceStatus::Active),
            instance("c", "eu-west-2", "m5d.8xlarge", InstanceStatus::Inactive),
            instance("d", "us-east-1", "m5d.8xlarge", InstanceStatus::Inactive),
            instance("e", "ap-south-1", "m5d.8xlarge", InstanceStatus::Inactive),
            instance("f", "eu-west-2", "t3.small", InstanceStatus::Inactive),
        ],
    }
}

#[test]
fn machines_are_selected() {
    let bed = testbed();
    assert_eq!(bed.username(), "ubuntu");
    assert_eq!(bed.instances(), vec![0, 1, 2, 3]);
    assert_eq!(bed.start_selection(1), vec![0, 2]);
    assert_eq!(bed.start_selection(2), vec![0, 3, 2]);
    assert_eq!(bed.start_plan(1), Ok(vec![0, 2]));
    assert_eq!(bed.start_plan(2), Err(TestbedError::InsufficientCapacity(1)));
    assert_eq!(bed.start_plan(5), Err(TestbedError::InsufficientCapacity(7)));
    assert_eq!(bed.start_plan(0), Ok(vec![]));
    assert_eq!(bed.stop_selection(), vec![1]);
    assert_eq!(bed.deploy_plan(2, None), vec!["us-east-1", "us-east-1", "eu-west-2", "eu-west-2"]);
    assert_eq!(bed.deploy_plan(1, Some("x")), vec!["x"]);
    assert!(bed.deploy_plan(0, None).is_empty());
    assert!(!Testbed::all_inactive(&bed.instances));
    assert!(Testbed::all_active(&bed.instances, &vec!["b".to_string()]));
    assert!(!Testbed::all_active(&bed.instances, &vec!["b".to_string(), "c".to_string()]));
    assert!(bed.instances[1].is_active() && bed.instances[0].is_inactive());
    assert!(!bed.instances[0].is_terminated());
    assert_eq!(bed.settings.get_region_config("eu-west-2").unwrap().nlb_arn, "nlb:eu-west-2");
    assert!(bed.settings.get_region_config("mars").is_none());
}

fn names() -> ProtocolMetrics {
    ProtocolMetrics {
        benchmark_duration: "benchmark_duration".into(),
        total_transactions: "latency_s_count".into(),
        latency_buckets: "latency_s".into(),
        latency_sum: "latency_s_sum".into(),
        latency_squared_sum: "latency_squared_s".into(),
    }
}

#[test]
fn prometheus_parse_breakdown() {
    let report = r#"
            # HELP benchmark_duration Duration of the benchmark
            # TYPE benchmark_duration counter
            benchmark_duration 30

            # HELP latency_breakdown_sum Cumulative latency breakdown
            # TYPE latency_breakdown_sum histogram
            latency_breakdown_sum{stage="1_queue",workload="shared"} 10.0
            latency_breakdown_count{stage="1_queue",workload="shared"} 100
            latency_breakdown_bucket{stage="1_queue",workload="shared",le="0.1"} 100

            latency_breakdown_sum{stage="5_committed_c",workload="shared"} 50.0
            latency_breakdown_count{stage="5_committed_c",workload="shared"} 100
            latency_breakdown_squared_s{stage="5_committed_c",workload="shared"} 2500.0
        "#;
    let measurements = Measurement::from_prometheus(&names(), report).unwrap();
    let measurement = measurements.get("shared").unwrap();

    let queue = measurement.breakdown.get("1_queue").unwrap();
    assert_eq!(queue.sum, 10_000_000_000);
    assert_eq!(queue.count, 100);
    assert_eq!(queue.buckets.get("0.1"), Some(&100));

    let commit = measurement.breakdown.get("5_committed_c").unwrap();
    assert_eq!(commit.sum, 50_000_000_000);
    assert_eq!(commit.count, 100);
    assert_eq!(f64::from_bits(commit.squared_sum), 2500.0);
    assert_eq!(commit.average(), 500_000_000);
    assert_eq!(measurement.timestamp, 30);
}

#[test]
fn exposed_text_is_measured() {
    let report = r#"
# TYPE benchmark_duration counter
benchmark_duration 300
# TYPE latency_s histogram
latency_s_bucket{workload="shared",le="0.1"} 5
latency_s_bucket{workload="shared",le="+Inf"} 8
latency_s_sum{workload="shared"} 2.5
latency_s_count{workload="shared"} 8
# TYPE latency_squared_s counter
latency_squared_s{workload="shared"} 9
# TYPE node_cpu_seconds_total counter
node_cpu_seconds_total{cpu="0",mode="idle"} 100
node_cpu_seconds_total{cpu="0",mode="user"} 7.5
# TYPE node_network_receive_bytes_total counter
node_network_receive_bytes_total{device="lo"} 1
node_network_receive_bytes_total{device="eth0"} 2
# TYPE node_network_transmit_bytes_total counter
node_network_transmit_bytes_total{device="eth0"} 3
"#;
    let all = Measurement::from_prometheus(&names(), report).unwrap();
    let shared = all.get("shared").unwrap();
    assert_eq!(shared.timestamp, 300);
    assert_eq!(shared.latency_e2e.buckets.get("0.1"), Some(&5));
    assert_eq!(shared.latency_e2e.buckets.get("inf"), Some(&8));
    assert_eq!(shared.latency_e2e.sum, 2_500_000_000);
    assert_eq!(shared.latency_e2e.count, 8);
    assert_eq!(f64::from_bits(shared.latency_e2e.squared_sum), 9.0);
    let system = all.get("system").unwrap();
    assert_eq!(system.cpu_seconds, vec![7.5f64.to_bits()]);
    assert_eq!(system.network_in_bytes, vec![2f64.to_bits()]);
    assert_eq!(system.network_out_bytes, vec![3f64.to_bits()]);
    assert!(all.get("global").is_some());
    let negative = "latency_s_sum{workload=\"shared\"} -1";
    assert!(Measurement::from_prometheus(&names(), negative).is_none());
    assert_eq!(names().metric("latency_s"), Metric::Buckets);
    assert_eq!(names().metric("other"), Metric::Other);
}

#[test]
fn numbers_are_rounded() {
    for v in [0.0, 0.5, 1.0, 1.999, 1e9, 4503599627370496.5, 1.8e19, 2e19, 1e300, 5e-324, -3.5] {
        let v: f64 = v;
        assert_eq!(to_whole(v.to_bits()), v as u64, "{v}");
    }
    assert_eq!(to_whole(f64::NAN.to_bits()), 0);
    assert_eq!(to_whole(f64::INFINITY.to_bits()), u64::MAX);
    assert_eq!(to_whole(f64::NEG_INFINITY.to_bits()), 0);
    for v in [0.0, -0.0, 2.5, 0.1, 1e-9, 4e-10, 0.9999999999, 1.5e-9, 2.5e-9, 123456.789, 1e18, 1.8e19, 2e19, -1e-20, 1e-300] {
        let v: f64 = v;
        let expected = std::time::Duration::try_from_secs_f64(v).ok().map(|d| d.as_nanos());
        assert_eq!(to_nanos(v.to_bits()), expected, "{v}");
    }
    assert_eq!(to_nanos(f64::NAN.to_bits()), None);
    assert_eq!(to_nanos(f64::INFINITY.to_bits()), None);
}

/// Stands for the provider: machines are numbered, and active when they are created.
fn create(bed: &mut Testbed, quantity: usize) {
    for region in bed.deploy_plan(quantity, None) {
        let id = bed.instances.len().to_string();
        let specs = bed.settings.specs.clone();
        bed.instances.push(instance(&id, &region, &specs, InstanceStatus::Active));
    }
}

fn empty_testbed() -> Testbed {
    Testbed { instances: Vec::new(), ..testbed() }
}

fn start_some(bed: &mut Testbed, quantity: usize) {
    for i in bed.start_selection(quantity) {
        bed.instances[i].status = InstanceStatus::Active;
    }
}

fn stop_all(bed: &mut Testbed) {
    for i in bed.stop_selection() {
        bed.instances[i].status = InstanceStatus::Inactive;
    }
}

#[test]
fn deploy() {
    let mut bed = empty_testbed();
    create(&mut bed, 5);
    assert_eq!(bed.instances.len(), 5 * bed.settings.regions.len());
    for (i, instance) in bed.instances.iter().enumerate() {
        assert_eq!(i.to_string(), instance.id);
    }
}

#[test]
fn start() {
    let mut bed = empty_testbed();
    create(&mut bed, 5);
    stop_all(&mut bed);
    assert!(bed.start_plan(2).is_ok());
    start_some(&mut bed, 2);
    for region in &bed.settings.regions {
        let here = || bed.instances.iter().filter(|x| x.region == region.name);
        assert_eq!(here().filter(|x| x.is_active()).count(), 2);
        assert_eq!(here().filter(|x| x.is_inactive()).count(), 3);
    }
}

#[test]
fn stop() {
    let mut bed = empty_testbed();
    create(&mut bed, 5);
    start_some(&mut bed, 2);
    assert!(!Testbed::all_inactive(&bed.instances));
    stop_all(&mut bed);
    assert!(Testbed::all_inactive(&bed.instances));
    assert!(bed.instances.iter().all(|x| x.is_inactive()));
}

#[test]
fn the_status_lists_machines_by_region() {
    let mut bed = testbed();
    bed.instances.push(instance("g", "us-east-1", "m5d.8xlarge", InstanceStatus::Terminated));
    bed.settings.regions.push(RegionConfig {
        name: "mars".into(),
        aga_dns_name: "".into(),
        nlb_arn: "".into(),
    });
    let status = bed.status();
    assert_eq!(status.active, 1);
    let lines: Vec<String> = status
        .rows
        .iter()
        .map(|row| match row {
            StatusRow::Region(name) => name.clone(),
            StatusRow::Blank => "-".into(),
            StatusRow::Machine { number, active, connect, address } => {
                format!("{number} {active} {connect} {address}")
            }
        })
        .collect();
    let connect = "ssh -i /keys/id ubuntu@host -p 9000";
    assert_eq!(
        lines,
        vec![
            "US-EAST-1".to_string(),
            "-".to_string(),
            format!("0 false {connect} 10.0.0.255"),
            format!("1 true {connect} 10.0.0.255"),
            format!("2 false {connect} 10.0.0.255"),
            "-".to_string(),
            "EU-WEST-2".to_string(),
            "-".to_string(),
            format!("0 false {connect} 10.0.0.255"),
            "-".to_string(),
            "MARS".to_string(),
        ]
    );
}

#[test]
fn texts_are_ordered() {
    for (a, b) in [("", "a"), ("a", "ab"), ("Z", "a"), ("ab", "b"), ("a\u{e9}", "a\u{4e2d}")] {
        assert!(text_before(a, b) && !text_before(b, a) && !text_before(a, a));
        assert!(a < b);
    }
}

#[test]
fn blank_lines_come_before_every_fifth_machine() {
    let mut bed = testbed();
    bed.settings.regions.truncate(1);
    bed.instances =
        (0..6).map(|_| instance("x", "us-east-1", "m5d.8xlarge", InstanceStatus::Active)).collect();
    let status = bed.status();
    assert_eq!(status.active, 6);
    let blanks: Vec<usize> = (0..status.rows.len())
        .filter(|i| matches!(status.rows[*i], StatusRow::Blank))
        .collect();
    assert_eq!(blanks, vec![1, 7]);
    bed.instances[0].status = InstanceStatus::Terminated;
    let blanks = bed.status().rows.iter().filter(|r| matches!(r, StatusRow::Blank)).count();
    assert_eq!(blanks, 2);
}

fn at(timestamp: u64, count: u64, sum: u128) -> Measurement {
    let mut m = Measurement::new();
    m.timestamp = timestamp;
    m.latency_e2e.count = count;
    m.latency_e2e.sum = sum;
    m
}

#[test]
fn latencies_are_averaged_in_the_steady_window() {
    let mut all = MeasurementsCollection::new();
    assert_eq!(all.benchmark_duration(), 0);
    for (t, c, s) in [(100, 1, 1), (241, 10, 100), (300, 20, 300), (301, 99, 999)] {
        all.add(0, "shared", at(t, c, s));
    }
    for (t, c, s) in [(250, 5, 50), (290, 5, 80), (299, 5, 90)] {
        all.add(1, "shared", at(t, c, s));
    }
    all.add(7, "other", at(400, 0, 0));
    all.add(7, "system", at(1, 0, 0));
    let mut labels: Vec<String> = all.labels().into_iter().cloned().collect();
    labels.sort();
    assert_eq!(labels, vec!["other", "shared", "system"]);
    assert_eq!(all.summary_labels(), vec!["other", "shared"]);
    let lengths: Vec<usize> = all.all_measurements("shared").iter().map(|l| l.len()).collect();
    assert_eq!(lengths.iter().sum::<usize>(), 7);
    assert_eq!(lengths.len(), 2);
    assert!(all.all_measurements("missing").is_empty());
    assert_eq!(all.benchmark_duration(), 400);
    assert_eq!(all.data.get("shared").unwrap().len(), 2);
    let first = all.data.get("shared").unwrap().get(&0).unwrap();
    assert_eq!(MeasurementsCollection::get_steady_state_window(first), None);
    assert_eq!(all.aggregate_average_latency("shared"), 0);
    all.add(0, "shared", at(310, 100, 1000));
    let first = all.data.get("shared").unwrap().get(&0).unwrap();
    assert_eq!(MeasurementsCollection::get_steady_state_window(first), Some((1, 3)));
    assert_eq!(all.aggregate_average_latency("shared"), 899 / 89);
    assert_eq!(all.aggregate_average_latency("missing"), 0);
    assert_eq!(HistogramSummary::new().average(), 0);
    let listed: &KeyMap<u64, Vec<Measurement>> = all.data.get("shared").unwrap();
    assert_eq!(listed.get(&1).unwrap().len(), 3);
}

fn machine(id: &str, ip: Option<Ipv4>, status: InstanceStatus) -> Machine {
    Machine { id: id.into(), public_ip: ip, specs: "M5d".into(), status }
}

#[test]
fn machines_of_a_region_are_listed() {
    let s = settings();
    let listener = |port, group: Option<&str>, arn: Option<&str>| Listener {
        port,
        target_group: group.map(String::from),
        arn: arn.map(String::from),
    };
    let listeners = vec![
        listener(Some(9000), Some("g0"), Some("l0")),
        listener(Some(22), Some("g1"), Some("l1")),
        listener(Some(9001), None, Some("l2")),
        listener(None, Some("g3"), Some("l3")),
        listener(Some(65536 + 9002), Some("g4"), Some("l4")),
    ];
    let ports = map_listeners(&s, &listeners);
    assert_eq!(ports.get("g0"), Some(&(9000, "l0".to_string())));
    assert_eq!(ports.get("g4"), Some(&(9002, "l4".to_string())));
    assert!(ports.get("g1").is_none() && ports.get("g3").is_none());

    let reply = |group: &str, port, target: Option<&str>| TargetReply {
        target_group: group.into(),
        port,
        listener: "l0".into(),
        target: target.map(String::from),
    };
    let routes = map_targets(&vec![reply("g0", 9000, Some("i-1")), reply("g4", 9002, None)]);
    let ip = Ipv4 { a: 1, b: 2, c: 3, d: 4 };
    let machines = vec![
        machine("i-1", Some(ip), InstanceStatus::Active),
        machine("i-2", None, InstanceStatus::Inactive),
        machine("i-3", None, InstanceStatus::Terminated),
    ];
    let listed = list_region(&s, "us-east-1", &routes, &machines);
    assert_eq!(listed.len(), 2);
    assert_eq!((listed[0].ssh_host.as_str(), listed[0].ssh_port), ("us-east-1.aga.example", 9000));
    assert_eq!(listed[0].nlb_target_group_arn, "g0");
    assert_eq!(listed[0].main_ip, ip);
    assert_eq!((listed[1].ssh_host.as_str(), listed[1].ssh_port), ("unknown.aga.com", 0));
    assert_eq!(listed[1].nlb_listener_arn, "unknown");
    assert_eq!(listed[1].main_ip, Ipv4 { a: 0, b: 0, c: 0, d: 0 });
    assert_eq!(listed[1].tags, vec!["bed"]);

    let ids = ids_by_region(&testbed().instances);
    assert_eq!(ids.get("us-east-1").unwrap(), &vec!["a", "b", "d"]);
    assert_eq!(ids.get("eu-west-2").unwrap(), &vec!["c", "f"]);
    assert!(ids.get("mars").is_none());
}

#[test]
fn ports_are_unique() {
    let mut ports = PortAllocator::new(&settings());
    assert_eq!(ports.allocate("us-east-1"), 9000);
    assert_eq!(ports.allocate("us-east-1"), 9001);
    assert_eq!(ports.allocate("eu-west-2"), 9000);
    assert_eq!(ports.allocate("us-east-1"), 9002);
}

#[test]
fn only_machines_in_known_regions_get_ports() {
    let s = settings();
    let mut ports = PortAllocator::new(&s);
    let requests = ["us-east-1", "mars", "us-east-1", "eu-west-2", "mars", "us-east-1"];
    let given: Vec<Option<u16>> = requests.iter().map(|r| ports.assign(&s, r).ok()).collect();
    assert_eq!(given, vec![Some(9000), None, Some(9001), Some(9000), None, Some(9002)]);
    match ports.assign(&s, "the \"moon\"") {
        Err(CloudProviderError::RequestError(m)) => {
            assert_eq!(m, format!("Undefined region {:?}", "the \"moon\""))
        }
        other => panic!("{other:?}"),
    }
}

#[test]
fn a_machine_is_provisioned() {
    let s = settings();
    let mut p = Provisioning::new("eu-west-2", 9003);
    let machine = machine("i-9", None, InstanceStatus::Active);
    let answers = ["", "ami", "i-9", "vpc", "tg", "", "li", "", ""];
    for (i, answer) in answers.iter().enumerate() {
        assert!(p.finish(&s, &machine).is_none(), "step {i}");
        p.advance(answer.to_string());
    }
    assert_eq!(p.stage, Stage::Done);
    assert_eq!((p.image.as_str(), p.network.as_str(), p.instance.as_str()), ("ami", "vpc", "i-9"));
    let made = p.finish(&s, &machine).unwrap();
    assert_eq!((made.ssh_port, made.ssh_host.as_str()), (9003, "eu-west-2.aga.example"));
    assert_eq!((made.nlb_target_group_arn.as_str(), made.nlb_listener_arn.as_str()), ("tg", "li"));
    assert_eq!(target_group_name("eu-west-2", 9003), "mysticeti-tg-eu-west-2-9003");
    let same = make_instance(&s, "eu-west-2", &machine, 9003, "tg", "li");
    assert_eq!(same.id, "i-9");
}

#[test]
fn a_machine_is_deleted() {
    assert_eq!(
        after_deletion(Deletion::DeleteListener, true),
        Some((Deletion::DeleteTargetGroup, PAUSE))
    );
    assert_eq!(
        after_deletion(Deletion::DeleteListener, false),
        Some((Deletion::DeleteTargetGroup, 0))
    );
    assert_eq!(after_deletion(Deletion::DeleteTargetGroup, false), Some((Deletion::Terminate, 0)));
    assert_eq!(after_deletion(Deletion::Terminate, true), Some((Deletion::Done, 0)));
    assert_eq!(after_deletion(Deletion::Terminate, false), None);
}

#[test]
fn answers_of_the_provider() {
    assert_eq!(username(), "ubuntu");
    assert!(os_image().contains("arm64"));
    assert_eq!(DEFAULT_EBS_SIZE_GB, 500);
    assert!(is_duplicate("InvalidGroup.DUPLICATE: already there"));
    assert!(!is_duplicate("Unauthorized"));
    assert!(!names_duplicate("DUPLICATE"));
    let rules = ingress_rules();
    assert_eq!(rules.len(), 4);
    assert_eq!((rules[0].protocol.as_str(), rules[0].from_port, rules[0].to_port), ("tcp", 0, 65535));
    assert_eq!((rules[3].protocol.as_str(), rules[3].from_port, rules[3].to_port), ("icmpv6", -1, -1));
    assert!(matches!(image_id(&vec![]), Err(CloudProviderError::RequestError(_))));
    assert!(matches!(image_id(&vec![None]), Err(CloudProviderError::UnexpectedResponse(_))));
    assert_eq!(image_id(&vec![Some("ami".into()), None]).unwrap(), "ami");

    let text = |w: Waiting| match w {
        Waiting::Failed(CloudProviderError::UnexpectedResponse(m)) => m,
        other => format!("{other:?}"),
    };
    assert_eq!(text(on_instance_state("i", false, None, None)), "Instance i not found after creation");
    assert_eq!(text(on_instance_state("i", true, None, None)), "Instance i has no state");
    assert_eq!(
        text(on_instance_state("i", true, Some(InstanceState::Other("Stopped".into())), None)),
        "Instance i entered unexpected state: Stopped"
    );
    assert!(matches!(
        on_instance_state("i", true, Some(InstanceState::Pending), None),
        Waiting::Again(5)
    ));
    let running = on_instance_state("i", true, Some(InstanceState::Running), Some("vpc".into()));
    assert!(matches!(running, Waiting::Ready(v) if v == "vpc"));
    assert_eq!(on_target_health(TargetHealth::Healthy), None);
    assert_eq!(on_target_health(TargetHealth::Other), Some(5));
    assert_eq!(on_target_health(TargetHealth::NotDescribed), Some(0));
}

#[test]
fn drives_are_mounted() {
    let mut s = settings();
    assert_eq!(
        instance_setup_commands(&s, true),
        vec![
            "(sudo mkfs.ext4 -E nodiscard /dev/nvme1n1 || true)",
            "(sudo mount /dev/nvme1n1 /home/ubuntu/working_dir || true)",
            "sudo chmod 777 -R /home/ubuntu/working_dir",
        ]
    );
    let unmount = vec!["(sudo umount /home/ubuntu/working_dir || true)"];
    assert_eq!(instance_setup_commands(&s, false), unmount);
    s.nvme = false;
    assert_eq!(instance_setup_commands(&s, true), unmount);
}

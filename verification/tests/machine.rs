use eratos::report::machine::{
    core_split, count_cores, cpu_model_from_cpuinfo, cpu_name, parse_cpu_list, perf_level_cores};

/// The sibling lists of `cpus`, as Linux writes them, one file per CPU.
fn siblings(cpus: &str, list: impl Fn(usize) -> String) -> Vec<String> {
    parse_cpu_list(cpus)
        .unwrap()
        .into_iter()
        .map(|cpu| format!("{}\n", list(cpu)))
        .collect()
}

#[test]
fn cores_count_once_however_many_threads() {
    // Core Ultra 7 265T: 8 performance and 12 efficiency cores, no hyper-threading
    assert_eq!(count_cores(&siblings("0-7", |cpu| cpu.to_string())), 8);
    assert_eq!(count_cores(&siblings("8-19", |cpu| cpu.to_string())), 12);
    // Core i7-13700: 8 performance cores with 2 threads each, then 8 efficiency cores
    let pairs = |cpu: usize| format!("{}-{}", cpu / 2 * 2, cpu / 2 * 2 + 1);
    assert_eq!(count_cores(&siblings("0-15", pairs)), 8);
    assert_eq!(count_cores(&siblings("16-23", |cpu| cpu.to_string())), 8);
    // white space around a list doesn't make another core
    assert_eq!(count_cores(&["3\n".to_string(), " 3".to_string(), "4".to_string()]), 2);
    assert_eq!(count_cores(&[]), 0);
}

#[test]
fn cpu_model_comes_from_cpuinfo() {
    let x86 = "processor\t: 0\nvendor_id\t: GenuineIntel\nmodel\t\t: 183\nmodel name\t: 13th Gen Intel(R) Core(TM)   i7-13700\nstepping\t: 1\n";
    assert_eq!(
        cpu_model_from_cpuinfo(x86),
        Some("13th Gen Intel(R) Core(TM) i7-13700".to_string())
    );
    let pi = "processor\t: 0\nBogoMIPS\t: 108.00\n\nHardware\t: BCM2835\nModel\t\t: Raspberry Pi 4 Model B Rev 1.4\n";
    assert_eq!(
        cpu_model_from_cpuinfo(pi),
        Some("Raspberry Pi 4 Model B Rev 1.4".to_string())
    );
    assert_eq!(cpu_model_from_cpuinfo("processor\t: 0\n"), None);
    assert_eq!(cpu_model_from_cpuinfo("model name\t:   \n"), None);
    assert_eq!(cpu_model_from_cpuinfo(""), None);
    // the first line that names the model wins
    assert_eq!(
        cpu_model_from_cpuinfo("Model: A\r\nmodel name: B\r\n"),
        Some("A".to_string())
    );
}

#[test]
fn cpu_names_lose_their_padding() {
    assert_eq!(cpu_name("Apple M2 Pro\n"), Some("Apple M2 Pro".to_string()));
    assert_eq!(cpu_name("  Intel  Xeon\t Gold "), Some("Intel Xeon Gold".to_string()));
    assert_eq!(cpu_name(" \n"), None);
    assert_eq!(cpu_name(""), None);
}

#[test]
fn perf_levels_come_in_threes() {
    assert_eq!(perf_level_cores("2\n6\n4\n"), Some((6, 4)));
    assert_eq!(perf_level_cores("2\n 8 \n2"), Some((8, 2)));
    assert_eq!(perf_level_cores("1\n8\n"), None);
    assert_eq!(perf_level_cores("3\n4\n4\n"), None);
    assert_eq!(perf_level_cores("2\n6\nx\n"), None);
    assert_eq!(perf_level_cores("2\n6\n4\n\n"), None);
    assert_eq!(perf_level_cores(""), None);
}

#[test]
fn low_power_cores_count_as_efficiency_cores() {
    assert_eq!(core_split(Some(8), Some(12), None), Some((8, 12)));
    assert_eq!(core_split(Some(6), Some(8), Some(2)), Some((6, 10)));
    assert_eq!(core_split(None, Some(8), Some(2)), None);
    assert_eq!(core_split(Some(6), None, Some(2)), None);
}

#[test]
fn shown_names_are_single_spaced() {
    for raw in ["\t AMD   Ryzen 9\u{a0}7950X  16-Core\u{2003}Processor \n", "x", " a b  c "] {
        let name = cpu_name(raw).unwrap();
        assert!(!name.is_empty());
        assert!(!name.starts_with(char::is_whitespace));
        assert!(!name.ends_with(char::is_whitespace));
        assert!(!name.contains("  "));
        assert!(name.chars().all(|c| c == ' ' || !c.is_whitespace()));
        assert_eq!(name, raw.split_whitespace().collect::<Vec<_>>().join(" "));
    }
    assert_eq!(cpu_name("\u{2003}\t\u{a0}"), None);
}

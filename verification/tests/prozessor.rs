use matrixmult::pinning::reihenfolge;
use matrixmult::prozessor::{kernart_bestimmen, modellname, ProzessorSpecs};

fn specs(logisch: u32, mit: Vec<u32>, ohne: Vec<u32>) -> ProzessorSpecs {
    ProzessorSpecs::aus_daten(String::from("Test CPU"), logisch, mit, ohne)
}

#[test]
fn aus_daten_rechnet_kerne() {
    let p = specs(6, vec![0, 1], vec![2, 3]);
    assert_eq!(p.physisch, 4);
    assert_eq!(p.hyperthreads_pro_kern, 2);
    let p = specs(28, (0..8).collect(), (8..20).collect());
    assert_eq!(p.physisch, 20);
    assert_eq!(p.hyperthreads_pro_kern, 2);
    let p = specs(2, vec![0], vec![1, 2, 3]);
    assert_eq!(p.hyperthreads_pro_kern, 0);
    let p = specs(8, vec![], vec![0, 1, 2, 3]);
    assert_eq!(p.hyperthreads_pro_kern, 2);
    let p = specs(8, vec![0, 1, 2, 3], vec![]);
    assert_eq!(p.hyperthreads_pro_kern, 2);
    assert!(!p.vollstaendig());
    let p = specs(4, vec![], vec![]);
    assert_eq!(p.physisch, 0);
    assert_eq!(p.hyperthreads_pro_kern, 1);
}

#[test]
fn vollstaendig_prueft_alles() {
    assert!(specs(6, vec![0], vec![1]).vollstaendig());
    assert!(!specs(0, vec![0], vec![1]).vollstaendig());
    assert!(!specs(6, vec![], vec![1]).vollstaendig());
    assert!(!ProzessorSpecs::aus_daten(String::new(), 6, vec![0], vec![1]).vollstaendig());
}

#[test]
fn pinning_reihenfolge() {
    let p = specs(6, vec![0, 1], vec![2, 3]);
    assert_eq!(p.hyperthreads_pro_kern, 2);
    assert_eq!(reihenfolge(4, &p), vec![0, 2, 4, 5]);
    assert_eq!(reihenfolge(6, &p), vec![0, 2, 4, 5, 1, 3]);
    assert_eq!(reihenfolge(10, &p), vec![0, 2, 4, 5, 1, 3]);
    assert_eq!(reihenfolge(0, &p), Vec::<usize>::new());
    assert_eq!(reihenfolge(1, &p), vec![0]);
}

#[test]
fn pinning_ohne_hyperthreading() {
    let p = specs(4, vec![], vec![0, 1, 2, 3]);
    assert_eq!(p.hyperthreads_pro_kern, 1);
    assert_eq!(reihenfolge(3, &p), vec![0, 1, 2]);
}

#[test]
fn modell_aus_cpuinfo() {
    let text = "processor\t: 0\nvendor_id\t: GenuineIntel\nmodel\t\t: 183\nmodel name\t: Intel(R) Core(TM) i7-14700K\nstepping\t: 1\nprocessor\t: 1\nmodel name\t: anderes\n";
    assert_eq!(modellname(text), "Intel(R) Core(TM) i7-14700K");
    assert_eq!(modellname(""), "");
    assert_eq!(modellname("model name:\nmodel name :  X Y \r\n"), "X Y");
    assert_eq!(modellname("model names: A\nmodel name"), "");
    assert_eq!(modellname("  model name : a:b"), "a:b");
}

#[test]
fn kernart_aus_lscpu() {
    let zeilen: Vec<String> = [
        "# The following is the parsable format, which can be fed to other",
        "# CPU,Core,Socket,Node,,L1d,L1i,L2,L3",
        "0,0,0,0,,0,0,0,0",
        "1,0,0,0,,0,0,0,0",
        "2,1,0,0,,1,1,1,0",
        "3,1,0,0,,1,1,1,0",
        "4,2,0,0,,2,2,2,0",
        "5,3,0,0,,3,3,2,0",
        "",
        "  6,+7  ",
        "kaputt",
    ]
    .iter()
    .map(|s| s.to_string())
    .collect();
    let (mit, ohne) = kernart_bestimmen(&zeilen);
    assert_eq!(mit, vec![0, 1]);
    assert_eq!(ohne, vec![2, 3, 7]);
}

#[test]
fn kernart_sortiert() {
    let zeilen: Vec<String> = ["9,9", "3,5", "1,3", "2,3", "0,5", "4,0"].iter().map(|s| s.to_string()).collect();
    let (mit, ohne) = kernart_bestimmen(&zeilen);
    assert_eq!(mit, vec![3, 5]);
    assert_eq!(ohne, vec![0, 9]);
}

#[test]
fn lscpu_lesbarkeit() {
    let gut: Vec<String> = ["# CPU,Core", "0,0", "1,+0", "  ", "x"].iter().map(|s| s.to_string()).collect();
    assert!(matrixmult::prozessor::lscpu_lesbar(&gut));
    let schlecht: Vec<String> = ["0,0", "1,a"].iter().map(|s| s.to_string()).collect();
    assert!(!matrixmult::prozessor::lscpu_lesbar(&schlecht));
    let zu_gross: Vec<String> = ["0,4294967296"].iter().map(|s| s.to_string()).collect();
    assert!(!matrixmult::prozessor::lscpu_lesbar(&zu_gross));
    let leer: Vec<String> = ["0,,1", "1,+"].iter().map(|s| s.to_string()).collect();
    assert!(!matrixmult::prozessor::lscpu_lesbar(&leer));
    let grenze: Vec<String> = ["0,4294967295"].iter().map(|s| s.to_string()).collect();
    assert!(matrixmult::prozessor::lscpu_lesbar(&grenze));
    assert_eq!(kernart_bestimmen(&grenze), (vec![], vec![4294967295]));
}

#[test]
fn pinning_i7_14700k() {
    let p = specs(28, (0..8).collect(), (8..20).collect());
    assert_eq!(reihenfolge(28, &p), {
        let mut v: Vec<usize> = (0..8).map(|a| 2 * a).collect();
        v.extend(16..28);
        v.extend((0..8).map(|a| 2 * a + 1));
        v
    });
    assert_eq!(reihenfolge(3, &p), vec![0, 2, 4]);
}

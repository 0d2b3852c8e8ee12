use matrixmult::algorithmus::{
    aufteilung, block_tiling, crossbeam_nutzen, loop_unrolling, manuelle_threads, manuelle_threads_alte_version,
    manuelle_threads_unsicher, rayon_nutzen, simd_nutzen, single_thread, zeilen,
};
use matrixmult::matrix::{single, zufallswerte};

fn kontrolle(a: &Vec<Vec<u32>>, b: &Vec<Vec<u32>>, n: usize) -> Vec<Vec<u32>> {
    let mut c = vec![vec![0; n]; n];
    single(a, b, &mut c, n);
    c
}

fn fuer_groessen(f: impl Fn(&Vec<Vec<u32>>, &Vec<Vec<u32>>, &mut Vec<Vec<u32>>, usize)) {
    for n in [0usize, 1, 3, 4, 5, 7, 8, 9, 16, 17, 23] {
        let a = zufallswerte(n);
        let b = zufallswerte(n);
        let mut c = vec![vec![99; n]; n];
        f(&a, &b, &mut c, n);
        assert_eq!(c, kontrolle(&a, &b, n), "n = {}", n);
    }
}

#[test]
fn rayon_wie_single() {
    fuer_groessen(|a, b, c, n| rayon_nutzen::parallel(a, b, c, n));
}

#[test]
fn single_thread_wie_single() {
    fuer_groessen(|a, b, c, n| single_thread::starten(a, b, c, n, 0));
}

#[test]
fn zeilen_mit_versatz() {
    fuer_groessen(|a, b, c, n| {
        let mitte = n / 2;
        let (oben, unten) = c.split_at_mut(mitte);
        zeilen::zeilen_berechnen(a, b, oben, 0, n);
        zeilen::zeilen_berechnen(a, b, unten, mitte, n);
    });
}

#[test]
fn loop_unrolling_wie_single() {
    fuer_groessen(|a, b, c, n| {
        let teile = aufteilung::aufteilen(n, 3);
        let mut rest: &mut [Vec<u32>] = c.as_mut_slice();
        for (anfang, anzahl) in teile {
            let (jetzt, danach) = rest.split_at_mut(anzahl);
            loop_unrolling::arbeiten(a, b, jetzt, anfang, n, 0);
            rest = danach;
        }
    });
}

#[test]
fn block_tiling_wie_single() {
    fuer_groessen(|a, b, c, n| {
        let teile = aufteilung::aufteilen(n, 2);
        let mut rest: &mut [Vec<u32>] = c.as_mut_slice();
        for (anfang, anzahl) in teile {
            let (jetzt, danach) = rest.split_at_mut(anzahl);
            block_tiling::arbeiten(a, b, jetzt, anfang, n, 0);
            rest = danach;
        }
    });
}

#[test]
fn block_tiling_ueberschreibt_alte_werte() {
    let n = 10;
    let a = zufallswerte(n);
    let b = zufallswerte(n);
    let mut c = vec![vec![12345; n + 2]; n];
    block_tiling::arbeiten(&a, &b, c.as_mut_slice(), 0, n, 0);
    let k = kontrolle(&a, &b, n);
    for i in 0..n {
        assert_eq!(&c[i][..n], &k[i][..]);
        assert_eq!(&c[i][n..], &[12345, 12345]);
    }
}

#[test]
fn simd_wie_single() {
    fuer_groessen(|a, b, c, n| {
        simd_nutzen::arbeiten(a, b, c.as_mut_slice(), 0, n, 0);
    });
}

#[test]
fn simd_lanes_rechnen_modulo() {
    let n = 8;
    let a = vec![vec![1u32 << 16; n]; n];
    let b = vec![vec![1u32 << 16; n]; n];
    let l = simd_nutzen::lanes_berechnen(&a, &b, 0, 0, n);
    assert_eq!(l, [0u32; 8]);
    let a3 = vec![vec![3u32; n]; n];
    let b5 = vec![vec![5u32; n]; n];
    assert_eq!(simd_nutzen::lanes_berechnen(&a3, &b5, 2, 0, n), [120u32; 8]);
}

#[test]
fn simd_rest_spalten() {
    let n = 10;
    let a = vec![vec![2u32; n]; n];
    let b = vec![vec![3u32; n]; n];
    let mut z = vec![0u32; n + 1];
    simd_nutzen::zeile_simd(&a, &b, 4, n, &mut z);
    assert_eq!(z, vec![60, 60, 60, 60, 60, 60, 60, 60, 60, 60, 0]);
}

#[test]
fn unsicher_wie_single() {
    fuer_groessen(|a, b, c, n| {
        let teile = aufteilung::aufteilen(n, 4);
        let mut rest: &mut [Vec<u32>] = c.as_mut_slice();
        for (anfang, anzahl) in teile {
            let (jetzt, danach) = rest.split_at_mut(anzahl);
            manuelle_threads_unsicher::arbeiten(a, b, jetzt, anfang, n, 0);
            rest = danach;
        }
    });
}

#[test]
fn alte_version_wie_single() {
    fuer_groessen(|a, b, c, n| {
        let threads = 3;
        for z in 0..threads {
            let (anfang, ende) = manuelle_threads_alte_version::bereich(n, threads, z);
            let teile = manuelle_threads_alte_version::arbeiten(a, b, anfang, ende, n, 0);
            manuelle_threads_alte_version::einsetzen(c, teile);
        }
    });
}

#[test]
fn alte_version_bereiche() {
    assert_eq!(manuelle_threads_alte_version::bereich(10, 3, 0), (0, 4));
    assert_eq!(manuelle_threads_alte_version::bereich(10, 3, 1), (4, 7));
    assert_eq!(manuelle_threads_alte_version::bereich(10, 3, 2), (7, 10));
    assert_eq!(manuelle_threads_alte_version::bereich(2, 4, 3), (2, 2));
}

#[test]
fn alte_version_einsetzen_ersetzt_zeilen() {
    let mut c = vec![vec![1u32, 1], vec![2, 2], vec![3, 3]];
    manuelle_threads_alte_version::einsetzen(&mut c, vec![(2, vec![9, 9]), (0, vec![7]), (2, vec![8, 8, 8])]);
    assert_eq!(c, vec![vec![7], vec![2, 2], vec![8, 8, 8]]);
}

#[test]
fn manuelle_threads_bloecke() {
    assert_eq!(manuelle_threads::naechster_block(0, 10), Some(4));
    assert_eq!(manuelle_threads::naechster_block(4, 10), Some(8));
    assert_eq!(manuelle_threads::naechster_block(8, 10), Some(10));
    assert_eq!(manuelle_threads::naechster_block(12, 10), None);
    assert_eq!(manuelle_threads::naechster_block(10, 10), None);
    assert_eq!(manuelle_threads::naechster_block(0, 0), None);
}

#[test]
fn manuelle_threads_wie_single() {
    fuer_groessen(|a, b, c, n| {
        let mut zaehler = 0;
        while let Some(ende) = manuelle_threads::naechster_block(zaehler, n) {
            zeilen::zeilen_berechnen(a, b, &mut c[zaehler..ende], zaehler, n);
            zaehler += manuelle_threads::ZEILEN_PRO_BLOCK;
        }
    });
}

#[test]
fn aufteilung_zehn_auf_drei() {
    assert_eq!(aufteilung::aufteilen(10, 3), vec![(0, 4), (4, 3), (7, 3)]);
    assert_eq!(aufteilung::aufteilen(2, 4), vec![(0, 1), (1, 1), (2, 0), (2, 0)]);
    assert_eq!(aufteilung::aufteilen(0, 1), vec![(0, 0)]);
    assert_eq!(aufteilung::zeilen_fuer(10, 3, 0), 4);
    assert_eq!(aufteilung::zeilen_fuer(10, 3, 2), 3);
}

#[test]
fn crossbeam_aufgaben() {
    let q = crossbeam_nutzen::aufgaben_erstellen(10, 2);
    let mut bereiche = Vec::new();
    while let Some(t) = q.steal().success() {
        bereiche.push((t.zeilen_start, t.zeilen_ende));
    }
    assert_eq!(bereiche, vec![(0, 2), (2, 4), (4, 5), (5, 6), (6, 7), (7, 8), (8, 9), (9, 10)]);
}

#[test]
fn crossbeam_wie_single() {
    fuer_groessen(|a, b, c, n| {
        let q = crossbeam_nutzen::aufgaben_erstellen(n, 3);
        while let Some(t) = q.steal().success() {
            zeilen::zeilen_berechnen(a, b, &mut c[t.zeilen_start..t.zeilen_ende], t.zeilen_start, n);
        }
    });
}

#[test]
fn ergebnis_unabhaengig_von_threads() {
    let n = 19;
    let a = zufallswerte(n);
    let b = zufallswerte(n);
    let mut vorige: Option<Vec<Vec<u32>>> = None;
    for threads in 1..7 {
        let mut c = vec![vec![0; n]; n];
        let teile = aufteilung::aufteilen(n, threads);
        let mut rest: &mut [Vec<u32>] = c.as_mut_slice();
        for (anfang, anzahl) in teile {
            let (jetzt, danach) = rest.split_at_mut(anzahl);
            block_tiling::arbeiten(&a, &b, jetzt, anfang, n, 0);
            rest = danach;
        }
        if let Some(v) = &vorige {
            assert_eq!(&c, v);
        }
        vorige = Some(c);
    }
    assert_eq!(vorige.unwrap(), kontrolle(&a, &b, n));
}

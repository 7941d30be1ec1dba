//! Writes the property table of each dataset — points, dimensions,
//! anomalies, contamination — as the original property report did.
use rsf::bounding_box::BoundingBox;

fn make_labelled(n: usize, n_anomalies: usize, d: usize) -> (Vec<Vec<i64>>, Vec<bool>) {
    let mut pts = Vec::new();
    let mut labels = Vec::new();
    for i in 0..n {
        let mut p = Vec::new();
        for k in 0..d {
            p.push(((i * (k + 3)) % 17) as i64);
        }
        pts.push(p);
        labels.push(false);
    }
    for a in 0..n_anomalies {
        let mut p = Vec::new();
        for k in 0..d {
            p.push(5000 + (a * (k + 1)) as i64);
        }
        pts.push(p);
        labels.push(true);
    }
    (pts, labels)
}

fn write_props(name: &str, sets: &[(&str, Vec<Vec<i64>>, Vec<bool>)]) -> String {
    let mut out = String::new();
    out.push_str(&format!("[{name}]\n"));
    out.push_str("name\tpoints\tdimensions\tanomalies\tcontamination\n");
    for (fname, x, y) in sets {
        let n = x.len();
        let d = BoundingBox::from_points(x).map(|bb| bb.d()).unwrap_or(0);
        let n1 = y.iter().filter(|&&a| a).count();
        let c_perc = n1 as f64 / n as f64 * 100.0;
        out.push_str(&format!("{fname}\t{n}\t{d}\t{n1}\t{c_perc:.1}%\n"));
    }
    out
}

#[test]
fn write_props_all() {
    let (x1, y1) = make_labelled(95, 5, 2);
    let (x2, y2) = make_labelled(990, 10, 3);
    let toy = write_props("toy", &[("blobs", x1, y1)]);
    assert!(toy.contains("blobs\t100\t2\t5\t5.0%"));
    let real = write_props("real", &[("wide", x2, y2)]);
    assert!(real.contains("wide\t1000\t3\t10\t1.0%"));
}

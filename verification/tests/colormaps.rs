// Host-side mirror of the GLSL colormaps of the image shader: every output
// channel must land in [0,1] across a t-sweep, and the two direction-sensitive
// maps (Plotly Greys reversed, Hot rising) must match their endpoints.
fn poly(t: f32, c: [[f32; 3]; 7]) -> [f32; 3] {
    let mut out = [0.0f32; 3];
    for k in 0..3 {
        let mut v = c[6][k];
        for row in (0..6).rev() {
            v = v * t + c[row][k];
        }
        out[k] = v;
    }
    out
}

const VIRIDIS: [[f32; 3]; 7] = [
    [0.2777, 0.0054, 0.3341],
    [0.1050, 1.4046, 1.3845],
    [-0.3308, 0.2148, 0.0951],
    [-4.6342, -5.7991, -19.3324],
    [6.2282, 14.1799, 56.6906],
    [4.7763, -13.7451, -65.3532],
    [-5.4354, 4.6454, 26.3124],
];
const CIVIDIS: [[f32; 3]; 7] = [
    [-0.0106, 0.1391, 0.3049],
    [0.4144, 0.5910, 1.4300],
    [3.6304, -0.2811, -6.4034],
    [-11.6605, 0.6512, 15.8266],
    [19.2064, -0.8501, -18.7982],
    [-15.1120, 0.5334, 10.4045],
    [4.5320, -0.1435, -2.1876],
];

#[test]
fn viridis_in_gamut() {
    // Viridis is a good fit end-to-end; require [0,1] without clamping.
    for i in 0..=20 {
        let t = i as f32 / 20.0;
        for ch in poly(t, VIRIDIS) {
            assert!((-0.01..=1.01).contains(&ch), "viridis t={t} ch={ch}");
        }
    }
}

#[test]
fn cividis_clamped_endpoints() {
    // The shader clamps cividis; check its clamped endpoints are sane
    // (dark blue low, yellow high — blue drops, red/green rise).
    let clamp = |a: [f32; 3]| a.map(|x| x.clamp(0.0, 1.0));
    let lo = clamp(poly(0.0, CIVIDIS));
    let hi = clamp(poly(1.0, CIVIDIS));
    assert!(
        hi[0] > lo[0] && hi[1] > lo[1],
        "cividis brightens r,g upward"
    );
    assert!(hi[2] < lo[2] + 0.5, "cividis is not blue at the top");
}

#[test]
fn hot_rises_black_to_white() {
    let hot = |t: f32| [3.0 * t, 3.0 * t - 1.0, 3.0 * t - 2.0].map(|x: f32| x.clamp(0.0, 1.0));
    assert!(hot(0.0).iter().all(|&c| c < 1e-6), "hot starts black");
    assert!(hot(1.0).iter().all(|&c| c > 1.0 - 1e-6), "hot ends white");
}

#[test]
fn greys_reversed() {
    let greys = |t: f32| 1.0 - t;
    assert!((greys(0.0) - 1.0).abs() < 1e-6, "Greys low = white");
    assert!(greys(1.0).abs() < 1e-6, "Greys high = black");
}

//! Run parameters of the model and their validation.
use vstd::prelude::*;

verus! {

/// Largest number of lattice sites (`L * L * H`) a lattice may have.
pub const MAX_NODES: usize = 268435456;

/// Number of fixed-point units in one unit of a real-valued parameter.
pub const FIXED_ONE: i64 = 10000000000;

/// Parameters of one lattice model.
///
/// `j`, `jl` and `gamma` are fixed-point numbers (see [`FIXED_ONE`]).
#[derive(Debug, Clone, Copy, PartialEq, Eq, Structural)]
pub struct Jxx {
    /// In-plane coupling strength.
    pub j: i64,
    /// Coupling strength between consecutive Trotter layers.
    pub jl: i64,
    /// Side length of the triangular lattice.
    pub l: usize,
    /// Number of Trotter layers.
    pub h: usize,
    /// Transverse field strength.
    pub gamma: i64,
}

impl Jxx {
    /// The lattice dimensions are usable: `L` a positive multiple of three,
    /// `H` positive, and the site count within [`MAX_NODES`].
    pub open spec fn wf(&self) -> bool {
        &&& self.l > 0
        &&& self.l % 3 == 0
        &&& self.h > 0
        &&& self.l * self.l * self.h <= MAX_NODES
    }
}

impl Default for Jxx {
    /// `J = 1`, `J_L = 1`, a `3 x 3 x 3` lattice and `gamma = 0.2`.
    fn default() -> (r: Jxx)
        ensures
            r == (Jxx { j: FIXED_ONE, jl: FIXED_ONE, l: 3, h: 3, gamma: 2000000000 }),
    {
        Jxx { j: FIXED_ONE, jl: FIXED_ONE, l: 3, h: 3, gamma: 2000000000 }
    }
}

/// A transverse field and the inter-layer coupling it induces,
/// `-ln(tanh(gamma)) / 2` rounded to ten decimal places; both fixed-point.
#[derive(Debug, Clone, Copy, PartialEq, Eq, Structural)]
pub struct TransverseField {
    pub gamma: i64,
    pub layer_strength: i64,
}

/// Settings of one run, as given on the command line.
#[derive(Debug, Clone)]
pub struct Options {
    /// In-plane coupling strength, fixed-point.
    pub j: Option<i64>,
    pub gamma: Option<TransverseField>,
    /// Side length of the lattice.
    pub l: Option<i64>,
    /// Number of Trotter layers.
    pub h: Option<i64>,
    /// Time limit of the solver request, in seconds.
    pub t: Option<i64>,
    pub use_random: bool,
    pub debug_output: bool,
    pub without_cycle: bool,
    /// Solution file to analyse.
    pub file_path: Option<String>,
    /// Solution file to take a warm start from.
    pub guidance_path: Option<String>,
}

/// A rejected run setting.
#[derive(Debug, Clone, Copy, PartialEq, Eq, Structural)]
pub enum ConfigError {
    /// The transverse field is negative.
    InvalidGamma,
    /// The side length is not a positive multiple of three.
    InvalidLength,
    /// The number of layers is not positive.
    InvalidHeight,
    /// The lattice would have more than [`MAX_NODES`] sites.
    LatticeTooLarge,
    /// The time limit lies outside `1 ..= 1800` seconds.
    InvalidTimeLimit,
}

/// Side length the options give, or the current one.
pub open spec fn chosen_l(jxx: Jxx, options: Options) -> int {
    match options.l {
        Some(l) => l as int,
        None => jxx.l as int,
    }
}

/// Number of layers the options give, or the current one.
pub open spec fn chosen_h(jxx: Jxx, options: Options) -> int {
    match options.h {
        Some(h) => h as int,
        None => jxx.h as int,
    }
}

/// The error `get_jxx` reports for these options, if any, checking the
/// field, the side length, the height and the size in that order.
pub open spec fn options_error(jxx: Jxx, options: Options) -> Option<ConfigError> {
    if options.gamma matches Some(f) && f.gamma < 0 {
        Some(ConfigError::InvalidGamma)
    } else if options.l matches Some(l) && (l <= 0 || l % 3 != 0) {
        Some(ConfigError::InvalidLength)
    } else if options.h matches Some(h) && h <= 0 {
        Some(ConfigError::InvalidHeight)
    } else if chosen_l(jxx, options) * chosen_l(jxx, options) * chosen_h(jxx, options) > MAX_NODES {
        Some(ConfigError::LatticeTooLarge)
    } else {
        None
    }
}

/// `jxx` with the options applied: each given value replaces the current
/// one; a zero field sets the layer coupling to zero, any other field sets
/// it to the coupling the field induces.
pub open spec fn with_options(jxx: Jxx, options: Options) -> Jxx {
    Jxx {
        j: match options.j {
            Some(j) => j,
            None => jxx.j,
        },
        jl: match options.gamma {
            Some(f) => if f.gamma == 0 {
                0
            } else {
                f.layer_strength
            },
            None => jxx.jl,
        },
        l: chosen_l(jxx, options) as usize,
        h: chosen_h(jxx, options) as usize,
        gamma: match options.gamma {
            Some(f) => f.gamma,
            None => jxx.gamma,
        },
    }
}

/// Applies the options to `jxx`, or reports the first invalid one and
/// leaves `jxx` as it was.
pub fn get_jxx(jxx: &mut Jxx, options: &Options) -> (r: Result<(), ConfigError>)
    requires
        old(jxx).wf(),
    ensures
        match r {
            Ok(()) => options_error(*old(jxx), *options) is None && *final(jxx) == with_options(
                *old(jxx),
                *options,
            ) && final(jxx).wf(),
            Err(e) => options_error(*old(jxx), *options) == Some(e) && *final(jxx) == *old(jxx),
        },
{
    if let Some(f) = options.gamma {
        if f.gamma < 0 {
            return Err(ConfigError::InvalidGamma);
        }
    }
    if let Some(l) = options.l {
        if l <= 0 || l % 3 != 0 {
            return Err(ConfigError::InvalidLength);
        }
    }
    if let Some(h) = options.h {
        if h <= 0 {
            return Err(ConfigError::InvalidHeight);
        }
    }
    let l: i128 = match options.l {
        Some(l) => l as i128,
        None => jxx.l as i128,
    };
    let h: i128 = match options.h {
        Some(h) => h as i128,
        None => jxx.h as i128,
    };
    if l > MAX_NODES as i128 || h > MAX_NODES as i128 {
        assert(l * l * h > MAX_NODES) by (nonlinear_arith)
            requires l >= 1, h >= 1, l > MAX_NODES || h > MAX_NODES;
        return Err(ConfigError::LatticeTooLarge);
    }
    assert(l * l <= 0x100_0000_0000_0000 && l * l * h <= 0x100_0000_0000_0000_0000_0000) by (nonlinear_arith)
        requires 1 <= l <= MAX_NODES, 1 <= h <= MAX_NODES;
    if l * l * h > MAX_NODES as i128 {
        return Err(ConfigError::LatticeTooLarge);
    }
    if let Some(j) = options.j {
        jxx.j = j;
    }
    if let Some(f) = options.gamma {
        if f.gamma == 0 {
            jxx.jl = 0;
        } else {
            jxx.jl = f.layer_strength;
        }
        jxx.gamma = f.gamma;
    }
    jxx.l = l as usize;
    jxx.h = h as usize;
    Ok(())
}

/// The classical case: with no transverse field, or a single layer, the
/// model has one layer, no field and no layer coupling.
pub open spec fn classical_limit(jxx: Jxx) -> Jxx {
    if jxx.gamma == 0 || jxx.h == 1 {
        Jxx { gamma: 0, jl: 0, h: 1, ..jxx }
    } else {
        jxx
    }
}

/// Collapses `jxx` to the classical case when its field is zero or it has
/// a single layer.
pub fn apply_classical_limit(jxx: &mut Jxx)
    requires
        old(jxx).wf(),
    ensures
        *final(jxx) == classical_limit(*old(jxx)),
        final(jxx).wf(),
{
    if jxx.gamma == 0 || jxx.h == 1 {
        assert(jxx.l * jxx.l * 1 <= jxx.l * jxx.l * jxx.h) by (nonlinear_arith)
            requires jxx.h >= 1;
        jxx.gamma = 0;
        jxx.jl = 0;
        jxx.h = 1;
    }
}

/// A zero field forces a single layer and no layer coupling, a single
/// layer forces a zero field, and applying the classical limit twice is
/// applying it once.
pub proof fn lemma_classical_limit(jxx: Jxx)
    ensures
        classical_limit(jxx).gamma == 0 ==> classical_limit(jxx).h == 1 && classical_limit(jxx).jl == 0,
        classical_limit(jxx).h == 1 ==> classical_limit(jxx).gamma == 0 && classical_limit(jxx).jl == 0,
        jxx.gamma == 0 || jxx.h == 1 ==> classical_limit(jxx).h == 1 && classical_limit(jxx).jl == 0
            && classical_limit(jxx).gamma == 0,
        classical_limit(classical_limit(jxx)) == classical_limit(jxx),
{
}

/// Solver settings of a request: the time limit and fixed tuning constants.
#[derive(Debug, Clone, Copy, PartialEq, Eq, Structural)]
pub struct RequestSettings {
    pub time_limit_sec: Option<i64>,
    pub gs_level: i64,
    pub gs_cutoff: i64,
    pub num_output_solution: i64,
}

/// Solver settings for the given time limit, which must lie in
/// `1 ..= 1800` seconds when given.
pub fn request_settings(time_limit_sec: Option<i64>) -> (r: Result<RequestSettings, ConfigError>)
    ensures
        match r {
            Ok(s) => (time_limit_sec matches Some(t) ==> 1 <= t <= 1800) && s == (RequestSettings {
                time_limit_sec,
                gs_level: 100,
                gs_cutoff: 100000,
                num_output_solution: 1024,
            }),
            Err(e) => e == ConfigError::InvalidTimeLimit && (time_limit_sec matches Some(t) && !(1
                <= t <= 1800)),
        },
{
    if let Some(t) = time_limit_sec {
        if t < 1 || t > 1800 {
            return Err(ConfigError::InvalidTimeLimit);
        }
    }
    Ok(RequestSettings { time_limit_sec, gs_level: 100, gs_cutoff: 100000, num_output_solution: 1024 })
}

/// What is recorded of a run beside its problem file.
#[derive(Debug, Clone, Copy, PartialEq, Eq, Structural)]
pub struct Metadata {
    pub strength: i64,
    pub layer_strength: i64,
    pub side_length: i64,
    pub height: i64,
    pub gamma: i64,
    pub time_limit_sec: i64,
}

/// The metadata of the run of `jxx`; the time limit defaults to 10 seconds.
pub fn metadata(jxx: &Jxx, time_limit_sec: Option<i64>) -> (m: Metadata)
    requires
        jxx.wf(),
    ensures
        m == (Metadata {
            strength: jxx.j,
            layer_strength: jxx.jl,
            side_length: jxx.l as i64,
            height: jxx.h as i64,
            gamma: jxx.gamma,
            time_limit_sec: match time_limit_sec {
                Some(t) => t,
                None => 10,
            },
        }),
{
    assert(jxx.l <= jxx.l * jxx.l * jxx.h && jxx.h <= jxx.l * jxx.l * jxx.h) by (nonlinear_arith)
        requires jxx.l >= 1, jxx.h >= 1;
    let time_limit_sec = match time_limit_sec {
        Some(t) => t,
        None => 10,
    };
    Metadata {
        strength: jxx.j,
        layer_strength: jxx.jl,
        side_length: jxx.l as i64,
        height: jxx.h as i64,
        gamma: jxx.gamma,
        time_limit_sec,
    }
}

} // verus!

use vstd::prelude::*;

verus! {

/// The anti-aliasing method to use during a render pass.
#[derive(Debug, Copy, Clone, PartialEq, Eq, Structural)]
pub enum AaConfig {
    /// Area anti-aliasing, computed from the winding number over the pixel's area.
    Area,
    /// 8x multisampling.
    Msaa8,
    /// 16x multisampling.
    Msaa16,
}

/// The set of anti-aliasing configurations to enable during pipeline creation.
#[derive(Debug, Copy, Clone, PartialEq, Eq, Structural)]
pub struct AaSupport {
    /// Support [`AaConfig::Area`].
    pub area: bool,
    /// Support [`AaConfig::Msaa8`].
    pub msaa8: bool,
    /// Support [`AaConfig::Msaa16`].
    pub msaa16: bool,
}

impl AaSupport {
    /// Whether this set enables `config`.
    pub open spec fn supports(self, config: AaConfig) -> bool {
        match config {
            AaConfig::Area => self.area,
            AaConfig::Msaa8 => self.msaa8,
            AaConfig::Msaa16 => self.msaa16,
        }
    }

    /// Support every anti-aliasing method.
    pub fn all() -> (r: Self)
        ensures
            r == (AaSupport { area: true, msaa8: true, msaa16: true }),
    {
        Self { area: true, msaa8: true, msaa16: true }
    }

    /// Support only [`AaConfig::Area`].
    pub fn area_only() -> (r: Self)
        ensures
            r == (AaSupport { area: true, msaa8: false, msaa16: false }),
    {
        Self { area: true, msaa8: false, msaa16: false }
    }
}

/// The set of configurations in `configs`.
pub open spec fn support_of(configs: Seq<AaConfig>) -> AaSupport {
    AaSupport {
        area: configs.contains(AaConfig::Area),
        msaa8: configs.contains(AaConfig::Msaa8),
        msaa16: configs.contains(AaConfig::Msaa16),
    }
}

impl AaSupport {
    /// Support exactly the configurations in `configs`.
    pub fn from_configs(configs: &[AaConfig]) -> (r: Self)
        ensures
            r == support_of(configs@),
    {
        let mut result = Self { area: false, msaa8: false, msaa16: false };
        let mut i: usize = 0;
        while i < configs.len()
            invariant
                0 <= i <= configs@.len(),
                result == support_of(configs@.take(i as int)),
            decreases configs.len() - i,
        {
            let config = configs[i];
            match config {
                AaConfig::Area => result.area = true,
                AaConfig::Msaa8 => result.msaa8 = true,
                AaConfig::Msaa16 => result.msaa16 = true,
            }
            proof {
                let before = configs@.take(i as int);
                let after = configs@.take(i + 1);
                assert(after =~= before.push(config));
                assert forall|c: AaConfig| after.contains(c) <==> (before.contains(c) || c == config) by {
                    if after.contains(c) {
                        let j = choose|j: int| 0 <= j < after.len() && #[trigger] after[j] == c;
                        if j < before.len() {
                            assert(before[j] == c);
                        }
                    }
                    if before.contains(c) {
                        let j = choose|j: int| 0 <= j < before.len() && #[trigger] before[j] == c;
                        assert(after[j] == c);
                    }
                    if c == config {
                        assert(after[i as int] == c);
                    }
                }
            }
            i += 1;
        }
        proof {
            assert(configs@.take(configs@.len() as int) =~= configs@);
        }
        result
    }
}

/// A support set built from configurations enables a configuration exactly
/// when it was among them.
pub proof fn lemma_support_is_membership(configs: Seq<AaConfig>, config: AaConfig)
    ensures
        support_of(configs).supports(config) <==> configs.contains(config),
{
}

} // verus!

//! The configuration of a run, where the meta parameters of an offspring came
//! from, and the user's objective function.
use vstd::prelude::*;
use crate::error::Error;
use crate::real_key::{RealKey, ONE_BITS, SIGN_BIT};

verus! {

/// Where the crossover and mutation parameters of an offspring came from.
#[derive(Clone, Copy, Debug, PartialEq, Eq, Structural)]
pub enum MetaParamsSource {
    Exploratory,
    Selected,
    SelectedAndMutated,
    Override,
}

/// The name of a meta parameter source.
pub open spec fn source_name(s: MetaParamsSource) -> Seq<char> {
    match s {
        MetaParamsSource::Exploratory => "Exploratory"@,
        MetaParamsSource::Selected => "Selected"@,
        MetaParamsSource::SelectedAndMutated => "SelectedAndMutated"@,
        MetaParamsSource::Override => "Override"@,
    }
}

impl MetaParamsSource {
    /// The name of the source, as reports show it.
    pub fn name(&self) -> (r: String)
        ensures
            r@ == source_name(*self),
    {
        match self {
            MetaParamsSource::Exploratory => "Exploratory".to_string(),
            MetaParamsSource::Selected => "Selected".to_string(),
            MetaParamsSource::SelectedAndMutated => "SelectedAndMutated".to_string(),
            MetaParamsSource::Override => "Override".to_string(),
        }
    }
}

/// The meta parameters used for an offspring, with their source. `CP` and
/// `MP` are the parameters of crossover and of mutation.
#[derive(Clone, Debug)]
pub struct MetaParamsWrapper<CP, MP> {
    pub source: MetaParamsSource,
    pub crossover_params: CP,
    pub mutation_params: MP,
}

impl<CP, MP> MetaParamsWrapper<CP, MP> {
    /// Meta parameters from a source.
    pub fn new(source: MetaParamsSource, crossover_params: CP, mutation_params: MP) -> (r: MetaParamsWrapper<CP, MP>)
        ensures
            r.source == source,
            r.crossover_params == crossover_params,
            r.mutation_params == mutation_params,
    {
        MetaParamsWrapper { source, crossover_params, mutation_params }
    }
}

/// The configuration of the algorithm: how many evaluations make up the
/// sample of an individual, which quantile of the sample stands for it, and
/// how many evaluations run at once.
#[derive(Debug, Clone, Copy)]
pub struct AlgoConfig {
    pub individual_sample_size: usize,
    pub obj_func_val_quantile: RealKey,
    pub num_concurrent: usize,
}

/// Builds an `AlgoConfig`, with defaults for what was not set.
#[derive(Debug)]
pub struct AlgoConfigBuilder {
    pub individual_sample_size: Option<usize>,
    pub obj_func_val_quantile: Option<RealKey>,
    pub num_concurrent: Option<usize>,
}

/// The default sample size of an individual.
pub const DEFAULT_IND_SAMPLE_SIZE: usize = 1;

/// The default number of evaluations at once.
pub const DEFAULT_NUM_CONCURRENT: usize = 1;

/// Whether a real is between zero and one, both included.
pub open spec fn is_unit_interval(q: RealKey) -> bool {
    SIGN_BIT <= q.0 && q.0 <= SIGN_BIT + ONE_BITS
}

/// The configuration that a builder builds, or the error it reports.
pub open spec fn spec_build(b: AlgoConfigBuilder) -> Result<AlgoConfig, Error> {
    let c = AlgoConfig {
        individual_sample_size: match b.individual_sample_size {
            Some(n) => n,
            None => DEFAULT_IND_SAMPLE_SIZE,
        },
        obj_func_val_quantile: match b.obj_func_val_quantile {
            Some(q) => q,
            None => RealKey((SIGN_BIT + ONE_BITS) as u64),
        },
        num_concurrent: match b.num_concurrent {
            Some(n) => n,
            None => DEFAULT_NUM_CONCURRENT,
        },
    };
    if !is_unit_interval(c.obj_func_val_quantile) {
        Err(Error::InvalidQuantile)
    } else if c.individual_sample_size == 0 {
        Err(Error::ZeroSampleSize)
    } else if c.num_concurrent == 0 {
        Err(Error::ZeroNumConcurrent)
    } else {
        Ok(c)
    }
}

impl AlgoConfigBuilder {
    /// A builder with nothing set.
    pub fn new() -> (r: AlgoConfigBuilder)
        ensures
            r.individual_sample_size is None,
            r.obj_func_val_quantile is None,
            r.num_concurrent is None,
    {
        AlgoConfigBuilder { individual_sample_size: None, obj_func_val_quantile: None, num_concurrent: None }
    }

    /// Sets the sample size of an individual.
    pub fn individual_sample_size(&mut self, individual_sample_size: usize) -> (r: &mut AlgoConfigBuilder)
        ensures
            *r == (AlgoConfigBuilder { individual_sample_size: Some(individual_sample_size), ..*old(self) }),
            *final(self) == *final(r),
    {
        self.individual_sample_size = Some(individual_sample_size);
        self
    }

    /// Sets the quantile of the sample that stands for an individual.
    pub fn obj_func_val_quantile(&mut self, obj_func_val_quantile: RealKey) -> (r: &mut AlgoConfigBuilder)
        ensures
            *r == (AlgoConfigBuilder { obj_func_val_quantile: Some(obj_func_val_quantile), ..*old(self) }),
            *final(self) == *final(r),
    {
        self.obj_func_val_quantile = Some(obj_func_val_quantile);
        self
    }

    /// Sets the number of evaluations at once.
    pub fn num_concurrent(&mut self, num_concurrent: usize) -> (r: &mut AlgoConfigBuilder)
        ensures
            *r == (AlgoConfigBuilder { num_concurrent: Some(num_concurrent), ..*old(self) }),
            *final(self) == *final(r),
    {
        self.num_concurrent = Some(num_concurrent);
        self
    }

    /// The configuration, with the defaults (sample size 1, quantile 1,
    /// one evaluation at once) for what was not set; `InvalidQuantile` where
    /// the quantile is outside zero to one, else `ZeroSampleSize` or
    /// `ZeroNumConcurrent` where those are zero.
    pub fn build(&mut self) -> (r: Result<AlgoConfig, Error>)
        ensures
            r == spec_build(*old(self)),
            *final(self) == *old(self),
    {
        let individual_sample_size = match self.individual_sample_size {
            Some(n) => n,
            None => DEFAULT_IND_SAMPLE_SIZE,
        };
        let obj_func_val_quantile = match self.obj_func_val_quantile {
            Some(q) => q,
            None => RealKey::one(),
        };
        let num_concurrent = match self.num_concurrent {
            Some(n) => n,
            None => DEFAULT_NUM_CONCURRENT,
        };
        if obj_func_val_quantile.0 < SIGN_BIT || obj_func_val_quantile.0 > SIGN_BIT + ONE_BITS {
            return Err(Error::InvalidQuantile);
        }
        if individual_sample_size == 0 {
            return Err(Error::ZeroSampleSize);
        }
        if num_concurrent == 0 {
            return Err(Error::ZeroNumConcurrent);
        }
        Ok(AlgoConfig { individual_sample_size, obj_func_val_quantile, num_concurrent })
    }
}

impl Default for AlgoConfigBuilder {
    fn default() -> (r: AlgoConfigBuilder)
        ensures
            r.individual_sample_size is None,
            r.obj_func_val_quantile is None,
            r.num_concurrent is None,
    {
        AlgoConfigBuilder::new()
    }
}

/// The user's objective function, held for evaluation.
pub struct ObjectiveFunctionImpl<F> {
    obj_func: F,
}

impl<F> ObjectiveFunctionImpl<F> {
    /// The function held.
    pub closed spec fn function(&self) -> F {
        self.obj_func
    }

    /// The function, to call.
    pub fn obj_func(&self) -> (r: &F)
        ensures
            *r == self.function(),
    {
        &self.obj_func
    }
}

/// Holds an objective function for evaluation.
pub fn make_obj_func<F>(f: F) -> (r: ObjectiveFunctionImpl<F>)
    ensures
        r.function() == f,
{
    ObjectiveFunctionImpl { obj_func: f }
}

} // verus!

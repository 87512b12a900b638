use accumulable::iter::{Accumulate, PartiallyAccumulate, PartiallyAccumulated};
use accumulable::{Accumulable, MaybeAccumulable};

#[derive(Clone, Copy, Debug, PartialEq)]
pub struct Volume(u64);

impl Accumulable for Volume {
    fn absorbed(self, rhs: Self) -> Self {
        Volume(self.0 + rhs.0)
    }

    fn accumulate_from(&mut self, rhs: &Self) {
        *self = Volume(self.0 + rhs.0);
    }
}

#[test]
fn iter_test_accumulate_zero() {
    let volumes: [Volume; 0] = [];

    assert_eq!(volumes.into_iter().accumulate::<Volume>(), None);
}

#[test]
fn iter_test_accumulate_one() {
    let volumes = [Volume(10)];

    assert_eq!(
        volumes.into_iter().accumulate::<Volume>().unwrap(),
        Volume(10)
    );
}

#[test]
fn iter_test_accumulate() {
    let volumes = [Volume(10), Volume(15), Volume(20), Volume(25), Volume(30)];

    assert_eq!(
        volumes.into_iter().accumulate::<Volume>().unwrap(),
        Volume(100)
    );
}

#[derive(Clone, Copy, Debug, PartialEq)]
pub enum VolumeSize<const N: u64> {
    Large(Volume),
    Small(Volume),
}

impl<const N: u64> VolumeSize<N> {
    pub fn new(volume: Volume) -> Self {
        if volume.0 >= N {
            Self::Large(volume)
        } else {
            Self::Small(volume)
        }
    }

    pub fn volume_value(&self) -> Volume {
        match self {
            Self::Large(x) | Self::Small(x) => *x,
        }
    }
}

impl<const N: u64> Accumulable for VolumeSize<N> {
    fn absorbed(self, rhs: Self) -> Self {
        VolumeSize::new(Volume(self.volume_value().0 + rhs.volume_value().0))
    }

    fn accumulate_from(&mut self, rhs: &Self) {
        *self = VolumeSize::new(self.volume_value().accumulate(&rhs.volume_value()))
    }
}

impl<const N: u64> MaybeAccumulable for VolumeSize<N> {
    fn accepts(self, _rhs: Self) -> bool {
        matches!(self, VolumeSize::Small(_))
    }

    fn joined(self, rhs: Self) -> Self {
        self.absorbed(rhs)
    }

    fn maybe_accumulate_from(&mut self, rhs: &Self) -> bool {
        match self {
            VolumeSize::Small(_) => {
                self.accumulate_from(rhs);

                true
            }
            _ => false,
        }
    }
}

type VolumeSize100 = VolumeSize<100>;

#[test]
fn iter_partially_accumulate_zero() {
    let volumes: [VolumeSize100; 0] = [];

    let partially_accumulated = volumes
        .into_iter()
        .partially_accumulate::<VolumeSize100>()
        .collect();

    assert_eq!(partially_accumulated, vec![])
}

#[test]
fn iter_partially_accumulate_one() {
    let volumes = [VolumeSize100::new(Volume(60))];

    let partially_accumulated = volumes
        .into_iter()
        .partially_accumulate::<VolumeSize100>()
        .collect();

    assert_eq!(partially_accumulated, vec![VolumeSize100::Small(Volume(60))])
}

#[test]
fn iter_partially_accumulate() {
    let volumes = [
        VolumeSize100::new(Volume(60)),
        VolumeSize100::new(Volume(30)),
        VolumeSize100::new(Volume(15)),
        //
        VolumeSize100::new(Volume(40)),
        VolumeSize100::new(Volume(70)),
        //
        VolumeSize100::new(Volume(80)),
        VolumeSize100::new(Volume(10)),
        VolumeSize100::new(Volume(5)),
        VolumeSize100::new(Volume(3)),
        VolumeSize100::new(Volume(2)),
        //
        VolumeSize100::new(Volume(1)),
        VolumeSize100::new(Volume(1)),
    ];

    let partially_accumulated = volumes
        .into_iter()
        .partially_accumulate::<VolumeSize100>()
        .collect();

    assert_eq!(
        partially_accumulated,
        vec![
            VolumeSize100::Large(Volume(105)),
            VolumeSize100::Large(Volume(110)),
            VolumeSize100::Large(Volume(100)),
            VolumeSize100::Small(Volume(2))
        ]
    )
}

#[test]
fn next_leaves_the_rejected_item_for_the_next_run() {
    let volumes = vec![
        VolumeSize100::new(Volume(60)),
        VolumeSize100::new(Volume(50)),
        VolumeSize100::new(Volume(7)),
    ];
    let mut split: PartiallyAccumulated<_, VolumeSize100> =
        PartiallyAccumulated::new(volumes.into_iter());

    assert_eq!(split.next(), Some(VolumeSize100::Large(Volume(110))));
    assert_eq!(split.next(), Some(VolumeSize100::Small(Volume(7))));
    assert_eq!(split.next(), None);
    assert_eq!(split.next(), None);
}

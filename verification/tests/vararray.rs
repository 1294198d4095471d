use tensor_graph::vararray::{VarArray, VarArrayError};

fn gen_varrs_with(limit: usize, inst_sample: &[usize]) -> Vec<VarArray> {
    let mut out = Vec::<VarArray>::new();
    for curr_limit in 0..limit {
        out.push(VarArray::from_slice(&inst_sample[0..=curr_limit]));
    }
    out
}

#[test]
fn create_and_length() {
    assert_eq!(VarArray::from_slice(&[]).len(), 0);
    assert_eq!(VarArray::from_slice(&[0]).len(), 1);
    assert_eq!(VarArray::from_slice(&[0, 0]).len(), 2);
    assert_eq!(VarArray::from_slice(&[0, 0, 0]).len(), 3);
    assert_eq!(VarArray::from_slice(&[0, 0, 0, 0]).len(), 4);
    assert_eq!(VarArray::from_slice(&[0, 0, 0, 0, 0]).len(), 5);
    assert_eq!(VarArray::from_slice(&[0, 0, 0, 0, 0, 0]).len(), 6);
    assert_eq!(VarArray::from_slice(&[0, 0, 0, 0, 0, 0, 0]).len(), 7);
    assert_eq!(VarArray::from_slice(&[0, 0, 0, 0, 0, 0, 0, 0]).len(), 8);
    assert_eq!(VarArray::from_slice(&[0, 0, 0, 0, 0, 0, 0, 0, 0]).len(), 9);
    assert_eq!(VarArray::from_slice(&[0; 128]).len(), 128);
}

#[test]
fn get() {
    let limit = 32usize;
    let sample: Vec<usize> = (0..limit).collect();
    let varrs = gen_varrs_with(limit, &sample);
    for varr in varrs {
        let curr_len = varr.len();
        for i in 0..limit {
            if i < curr_len {
                assert_eq!(varr.get(i).unwrap(), sample[i]);
            } else {
                assert_eq!(
                    varr.get(i),
                    Result::Err(VarArrayError::IndexOutOfRange { index: i, length: varr.len() })
                );
            }
        }
    }
}

#[test]
fn iter() {
    let limit = 32usize;
    let sample: Vec<usize> = (0..limit).collect();
    let varrs = gen_varrs_with(limit, &sample);
    for varr in varrs {
        let curr_len = varr.len();
        let mut it = varr.iter();
        let mut count = 0usize;
        while let Some(v) = it.next() {
            assert_eq!(v, sample[count]);
            count += 1;
        }
        assert_eq!(count, curr_len);
    }
}

#[test]
fn add() {
    let limit = 32usize;
    let sample_forwards: Vec<usize> = (0..limit).collect();
    let sample_backwards: Vec<usize> = (0..limit * 2).step_by(2).rev().collect();
    let varrs_forwards = gen_varrs_with(limit, &sample_forwards);
    let varrs_backwards = gen_varrs_with(limit, &sample_backwards);
    for (varr_forwards, varr_backwards) in varrs_forwards.iter().zip(varrs_backwards.iter()) {
        let curr_forwards_len = varr_forwards.len();
        let curr_backwards_len = varr_backwards.len();
        let added = varr_forwards.add(varr_backwards).unwrap();
        assert_eq!(added.len(), curr_forwards_len);
        assert_eq!(added.len(), curr_backwards_len);
        for i in 0..added.len() {
            assert_eq!(added.get(i).unwrap(), sample_forwards[i] + sample_backwards[i]);
        }
    }
}

#[test]
fn sub() {
    let limit = 32usize;
    let sample_forwards: Vec<usize> = (0..limit * 2).step_by(2).collect();
    let sample_backwards: Vec<usize> = (0..limit).collect();
    let varrs_forwards = gen_varrs_with(limit, &sample_forwards);
    let varrs_backwards = gen_varrs_with(limit, &sample_backwards);
    for (varr_forwards, varr_backwards) in varrs_forwards.iter().zip(varrs_backwards.iter()) {
        let curr_forwards_len = varr_forwards.len();
        let curr_backwards_len = varr_backwards.len();
        let subbed = varr_forwards.sub(varr_backwards).unwrap();
        assert_eq!(subbed.len(), curr_forwards_len);
        assert_eq!(subbed.len(), curr_backwards_len);
        for i in 0..subbed.len() {
            assert_eq!(subbed.get(i).unwrap(), sample_forwards[i] - sample_backwards[i]);
        }
    }
}

#[test]
fn div() {
    let limit = 32usize;
    let sample_forwards: Vec<usize> = (0..limit * 512).step_by(512).collect();
    let sample_backwards: Vec<usize> = (1..=limit).collect();
    let varrs_forwards = gen_varrs_with(limit, &sample_forwards);
    let varrs_backwards = gen_varrs_with(limit, &sample_backwards);
    for (varr_forwards, varr_backwards) in varrs_forwards.iter().zip(varrs_backwards.iter()) {
        let curr_forwards_len = varr_forwards.len();
        let curr_backwards_len = varr_backwards.len();
        let divided = varr_forwards.div(varr_backwards).unwrap();
        assert_eq!(divided.len(), curr_forwards_len);
        assert_eq!(divided.len(), curr_backwards_len);
        for i in 0..divided.len() {
            assert_eq!(divided.get(i).unwrap(), sample_forwards[i] / sample_backwards[i]);
        }
    }
}

#[test]
fn mul() {
    let limit = 32usize;
    let sample_forwards: Vec<usize> = (0..limit * 2).step_by(2).collect();
    let sample_backwards: Vec<usize> = (0..limit).collect();
    let varrs_forwards = gen_varrs_with(limit, &sample_forwards);
    let varrs_backwards = gen_varrs_with(limit, &sample_backwards);
    for (varr_forwards, varr_backwards) in varrs_forwards.iter().zip(varrs_backwards.iter()) {
        let curr_forwards_len = varr_forwards.len();
        let curr_backwards_len = varr_backwards.len();
        let multiplied = varr_forwards.mul(varr_backwards).unwrap();
        assert_eq!(multiplied.len(), curr_forwards_len);
        assert_eq!(multiplied.len(), curr_backwards_len);
        for i in 0..multiplied.len() {
            assert_eq!(multiplied.get(i).unwrap(), sample_forwards[i] * sample_backwards[i]);
        }
    }
}

#[test]
fn rem() {
    let limit = 32usize;
    let sample_forwards: Vec<usize> = (1..=limit).collect();
    let sample_backwards: Vec<usize> = (2..=limit * 2).step_by(2).collect();
    let varrs_forwards = gen_varrs_with(limit, &sample_forwards);
    let varrs_backwards = gen_varrs_with(limit, &sample_backwards);
    for (varr_forwards, varr_backwards) in varrs_forwards.iter().zip(varrs_backwards.iter()) {
        let curr_forwards_len = varr_forwards.len();
        let curr_backwards_len = varr_backwards.len();
        let remainders = varr_forwards.rem(varr_backwards).unwrap();
        assert_eq!(remainders.len(), curr_forwards_len);
        assert_eq!(remainders.len(), curr_backwards_len);
        for i in 0..remainders.len() {
            assert_eq!(remainders.get(i).unwrap(), sample_forwards[i] % sample_backwards[i]);
        }
    }
}
